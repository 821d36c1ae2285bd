//! Sampling strategies that shrink a graph to a bounded node set, and the
//! edge-induced companion that keeps only edges inside a node set.

use vstd::prelude::*;
use vstd::math::min;
use vstd::set_lib::lemma_len_subset;
use crate::graph::{Graph, GraphEntry, Rep, al_contains, al_index, contains_id, rep_of};
use crate::reach::{
    component, connects, edge_step, lemma_closed_set_contains_component, lemma_component_finite,
    lemma_reaches_self, lemma_reaches_step, lemma_reaches_within_mono, lemma_reaches_within_step,
    reaches, reaches_within,
};
use crate::traverse::prefix_expanded;

verus! {

/// Bounded breadth-first sampling from `start_node`.
///
/// Nodes are discovered in adjacency-list order and kept only while the
/// sample is smaller than `sample_size`, so the result is the whole connected
/// component of `start_node` when that component is within budget, and exactly
/// `sample_size` of its nodes otherwise. Every sampled node is reachable from
/// `start_node` along a walk that stays inside the sample, so the sample
/// induces a connected subgraph. `start_node` is always kept, even under a
/// zero budget.
pub fn sample_connected_nodes(graph: &Graph, start_node: usize, sample_size: usize) -> (sampled:
    Vec<usize>)
    requires
        graph.wf(),
    ensures
        sampled@.no_duplicates(),
        sampled@.contains(start_node),
        sampled@.to_set().subset_of(component(graph.adj(), start_node)),
        forall|i: int|
            0 <= i < sampled@.len() ==> reaches_within(
                graph.adj(),
                sampled@.to_set(),
                start_node,
                #[trigger] sampled@[i],
            ),
        sample_size == 0 ==> sampled@ == seq![start_node],
        sample_size >= 1 ==> sampled@.len() == min(
            sample_size as int,
            component(graph.adj(), start_node).len() as int,
        ),
        sampled@.len() < sample_size ==> sampled@.to_set() == component(graph.adj(), start_node),
{
    let mut q: Vec<usize> = Vec::new();
    q.push(start_node);
    let mut head: usize = 0;
    proof {
        lemma_reaches_self(graph.adj(), start_node);
        lemma_component_finite(graph.rep(), start_node);
        lemma_queue_in_component(*graph, q@, start_node);
        assert(connects(graph.adj(), seq![start_node], start_node, start_node));
        assert(q@.to_set().contains(start_node)) by {
            assert(q@[0] == start_node);
        }
        assert(reaches_within(graph.adj(), q@.to_set(), start_node, start_node)) by {
            assert(forall|i: int|
                0 <= i < seq![start_node].len() ==> q@.to_set().contains(
                    #[trigger] seq![start_node][i],
                ));
        }
    }
    while head < q.len()
        invariant_except_break
            graph.wf(),
            1 <= q@.len(),
            q@.first() == start_node,
            head <= q@.len(),
            q@.no_duplicates(),
            forall|i: int| 0 <= i < q@.len() ==> reaches(graph.adj(), start_node, #[trigger] q@[i]),
            forall|i: int|
                0 <= i < q@.len() ==> reaches_within(
                    graph.adj(),
                    q@.to_set(),
                    start_node,
                    #[trigger] q@[i],
                ),
            q@.len() < sample_size ==> prefix_expanded(*graph, q@, head as int),
            sample_size >= 1 ==> q@.len() <= sample_size,
            sample_size == 0 ==> q@ == seq![start_node],
            q@.len() <= component(graph.adj(), start_node).len(),
        ensures
            graph.wf(),
            1 <= q@.len(),
            q@.first() == start_node,
            q@.no_duplicates(),
            forall|i: int| 0 <= i < q@.len() ==> reaches(graph.adj(), start_node, #[trigger] q@[i]),
            forall|i: int|
                0 <= i < q@.len() ==> reaches_within(
                    graph.adj(),
                    q@.to_set(),
                    start_node,
                    #[trigger] q@[i],
                ),
            q@.len() < sample_size ==> prefix_expanded(*graph, q@, q@.len() as int),
            sample_size >= 1 ==> q@.len() <= sample_size,
            sample_size == 0 ==> q@ == seq![start_node],
            q@.len() <= component(graph.adj(), start_node).len(),
        decreases component(graph.adj(), start_node).len() - head,
    {
        let node = q[head];
        head += 1;
        if q.len() >= sample_size {
            proof {
                if q@.len() < sample_size {
                    assert(false);
                }
            }
            break;
        }
        match graph.get(node) {
            Some(nbs) => {
                let n = nbs.len();
                let ghost q0 = q@;
                let mut k: usize = 0;
                while k < n
                    invariant
                        graph.wf(),
                        n == nbs@.len(),
                        nbs@ == graph.spec_neighbors(node),
                        graph.spec_contains(node),
                        k <= n,
                        1 <= head <= q@.len(),
                        q@[head - 1] == node,
                        q@.first() == start_node,
                        q@.no_duplicates(),
                        forall|i: int|
                            0 <= i < q@.len() ==> reaches(
                                graph.adj(),
                                start_node,
                                #[trigger] q@[i],
                            ),
                        forall|i: int|
                            0 <= i < q@.len() ==> reaches_within(
                                graph.adj(),
                                q@.to_set(),
                                start_node,
                                #[trigger] q@[i],
                            ),
                        q@.len() < sample_size ==> prefix_expanded(*graph, q@, head - 1),
                        q@.len() < sample_size ==> forall|j: int|
                            0 <= j < k ==> q@.contains(#[trigger] nbs@[j]),
                        sample_size >= 1 ==> q@.len() <= sample_size,
                        q0.is_prefix_of(q@),
                        q@.len() <= component(graph.adj(), start_node).len(),
                    decreases n - k,
                {
                    let v = nbs[k];
                    if !contains_id(&q, v) && q.len() < sample_size {
                        proof {
                            assert(graph.adj().contains_key(node));
                            assert(graph.adj()[node] == graph.spec_neighbors(node));
                            assert(edge_step(graph.adj(), node, v));
                            lemma_reaches_step(graph.adj(), start_node, node, v);
                        }
                        let ghost qb = q@;
                        q.push(v);
                        proof {
                            assert(forall|j: int| 0 <= j < qb.len() ==> q@[j] == #[trigger] qb[j]);
                            assert forall|x: usize| qb.contains(x) implies q@.contains(x) by {
                                let i = choose|i: int| 0 <= i < qb.len() && qb[i] == x;
                                assert(q@[i] == x);
                            }
                            assert(q@.last() == v);
                            assert(q@.contains(v));
                            assert(qb.to_set().subset_of(q@.to_set())) by {
                                assert forall|x: usize|
                                    qb.to_set().contains(x) implies q@.to_set().contains(x) by {
                                    assert(q@.contains(x));
                                }
                            }
                            assert forall|i: int|
                                0 <= i < q@.len() implies reaches_within(
                                graph.adj(),
                                q@.to_set(),
                                start_node,
                                #[trigger] q@[i],
                            ) by {
                                if i < qb.len() {
                                    assert(reaches_within(
                                        graph.adj(),
                                        qb.to_set(),
                                        start_node,
                                        qb[i],
                                    ));
                                    lemma_reaches_within_mono(
                                        graph.adj(),
                                        qb.to_set(),
                                        q@.to_set(),
                                        start_node,
                                        qb[i],
                                    );
                                } else {
                                    assert(q@[i] == v);
                                    assert(reaches_within(
                                        graph.adj(),
                                        qb.to_set(),
                                        start_node,
                                        qb[head - 1],
                                    ));
                                    lemma_reaches_within_mono(
                                        graph.adj(),
                                        qb.to_set(),
                                        q@.to_set(),
                                        start_node,
                                        node,
                                    );
                                    assert(q@.to_set().contains(v));
                                    lemma_reaches_within_step(
                                        graph.adj(),
                                        q@.to_set(),
                                        start_node,
                                        node,
                                        v,
                                    );
                                }
                            }
                            if q@.len() < sample_size {
                                assert(prefix_expanded(*graph, q@, head - 1)) by {
                                    assert(forall|j: int, k2: int|
                                        #![trigger graph.spec_neighbors(q@[j])[k2]]
                                        0 <= j < head - 1 && 0 <= k2 < graph.spec_neighbors(
                                            q@[j],
                                        ).len() ==> qb.contains(graph.spec_neighbors(q@[j])[k2]));
                                }
                            }
                            lemma_queue_in_component(*graph, q@, start_node);
                        }
                    }
                    k += 1;
                }
                proof {
                    if q@.len() < sample_size {
                        assert(prefix_expanded(*graph, q@, head as int)) by {
                            assert(forall|j: int|
                                0 <= j < graph.spec_neighbors(q@[head - 1]).len() ==> q@.contains(
                                    #[trigger] graph.spec_neighbors(q@[head - 1])[j],
                                ));
                        }
                    }
                }
            },
            None => {
                proof {
                    if q@.len() < sample_size {
                        assert(graph.spec_neighbors(node) =~= Seq::<usize>::empty());
                        assert(prefix_expanded(*graph, q@, head as int));
                    }
                }
            },
        }
    }
    proof {
        let g = graph.adj();
        let comp = component(g, start_node);
        lemma_component_finite(graph.rep(), start_node);
        q@.unique_seq_to_set();
        assert(q@.to_set().contains(start_node)) by {
            assert(q@[0] == start_node);
        }
        assert forall|t: usize| q@.to_set().contains(t) implies comp.contains(t) by {
            let i = choose|i: int| 0 <= i < q@.len() && q@[i] == t;
            assert(reaches(g, start_node, q@[i]));
        }
        lemma_len_subset(q@.to_set(), comp);
        if q@.len() < sample_size {
            assert forall|t: usize| comp.contains(t) implies q@.to_set().contains(t) by {
                assert forall|u: usize, v: usize|
                    q@.to_set().contains(u) && #[trigger] edge_step(g, u, v) implies q@.to_set()
                    .contains(v) by {
                    let j = choose|j: int| 0 <= j < q@.len() && q@[j] == u;
                    assert(g[u] == graph.spec_neighbors(u));
                    let k = choose|k: int| 0 <= k < g[u].len() && g[u][k] == v;
                    assert(q@.contains(graph.spec_neighbors(q@[j])[k]));
                }
                lemma_closed_set_contains_component(g, q@.to_set(), start_node, t);
            }
            assert(q@.to_set() =~= comp);
        }
    }
    q
}

/// A duplicate-free queue of nodes reachable from `s` is no longer than the
/// component of `s`.
pub proof fn lemma_queue_in_component(g: Graph, q: Seq<usize>, s: usize)
    requires
        q.no_duplicates(),
        forall|i: int| 0 <= i < q.len() ==> reaches(g.adj(), s, #[trigger] q[i]),
    ensures
        q.len() <= component(g.adj(), s).len(),
{
    lemma_component_finite(g.rep(), s);
    q.unique_seq_to_set();
    assert forall|t: usize| q.to_set().contains(t) implies component(g.adj(), s).contains(t) by {
        let i = choose|i: int| 0 <= i < q.len() && q[i] == t;
        assert(reaches(g.adj(), s, q[i]));
    }
    lemma_len_subset(q.to_set(), component(g.adj(), s));
}

/// The edges one adjacency entry contributes to an edge-induced sample:
/// `(node, v)` for each listed neighbor `v` inside the node set, in list order.
pub open spec fn entry_induced(node: usize, nbs: Seq<usize>, sset: Set<usize>) -> Seq<
    (usize, usize),
>
    decreases nbs.len(),
{
    if nbs.len() == 0 {
        Seq::empty()
    } else {
        entry_induced(node, nbs.drop_last(), sset) + if sset.contains(nbs.last()) {
            seq![(node, nbs.last())]
        } else {
            Seq::empty()
        }
    }
}

/// The edge-induced sample of a whole representation: entries in insertion
/// order, each contributing only when its own node is inside the node set.
pub open spec fn induced_edges_spec(es: Rep, sset: Set<usize>) -> Seq<(usize, usize)>
    decreases es.len(),
{
    if es.len() == 0 {
        Seq::empty()
    } else {
        induced_edges_spec(es.drop_last(), sset) + if sset.contains(es.last().0) {
            entry_induced(es.last().0, es.last().1, sset)
        } else {
            Seq::empty()
        }
    }
}

/// Every edge an entry contributes has its target in the node set.
proof fn lemma_entry_induced_members(node: usize, nbs: Seq<usize>, sset: Set<usize>)
    ensures
        forall|i: int|
            0 <= i < entry_induced(node, nbs, sset).len() ==> (#[trigger] entry_induced(
                node,
                nbs,
                sset,
            )[i]).0 == node && sset.contains(entry_induced(node, nbs, sset)[i].1) && nbs.contains(
                entry_induced(node, nbs, sset)[i].1,
            ),
    decreases nbs.len(),
{
    if nbs.len() > 0 {
        lemma_entry_induced_members(node, nbs.drop_last(), sset);
        let rec = entry_induced(node, nbs.drop_last(), sset);
        let out = entry_induced(node, nbs, sset);
        assert forall|v: usize| nbs.drop_last().contains(v) implies nbs.contains(v) by {
            let j = choose|j: int| 0 <= j < nbs.drop_last().len() && nbs.drop_last()[j] == v;
            assert(nbs[j] == v);
        }
        assert forall|i: int| 0 <= i < out.len() implies out[i].0 == node && sset.contains(
            out[i].1,
        ) && nbs.contains(out[i].1) by {
            if i < rec.len() {
                assert(out[i] == rec[i]);
                assert(nbs.drop_last().contains(rec[i].1));
            } else {
                assert(sset.contains(nbs.last()));
                assert(out[i] == (node, nbs.last()));
                assert(nbs.contains(nbs.last()));
            }
        }
    }
}

/// Both endpoints of every edge in an edge-induced sample lie in the node set,
/// and the source node's entry lists the target as a neighbor.
pub proof fn lemma_induced_edges_members(es: Rep, sset: Set<usize>)
    requires
        crate::graph::al_wf(es),
    ensures
        forall|i: int|
            0 <= i < induced_edges_spec(es, sset).len() ==> sset.contains(
                (#[trigger] induced_edges_spec(es, sset)[i]).0,
            ) && sset.contains(induced_edges_spec(es, sset)[i].1) && edge_step(
                crate::graph::adj_of(es),
                induced_edges_spec(es, sset)[i].0,
                induced_edges_spec(es, sset)[i].1,
            ),
    decreases es.len(),
{
    if es.len() > 0 {
        let prev = es.drop_last();
        assert(crate::graph::al_wf(prev)) by {
            assert(forall|i: int| 0 <= i < prev.len() ==> #[trigger] prev[i] == es[i]);
        }
        lemma_induced_edges_members(prev, sset);
        assert forall|u: usize, v: usize|
            edge_step(crate::graph::adj_of(prev), u, v) implies edge_step(
            crate::graph::adj_of(es),
            u,
            v,
        ) by {
            lemma_al_prefix_edge(es, u, v);
        }
        let node = es.last().0;
        let tail = if sset.contains(node) {
            entry_induced(node, es.last().1, sset)
        } else {
            Seq::<(usize, usize)>::empty()
        };
        let rec = induced_edges_spec(prev, sset);
        let out = induced_edges_spec(es, sset);
        if sset.contains(node) {
            lemma_entry_induced_members(node, es.last().1, sset);
        }
        assert forall|i: int| 0 <= i < out.len() implies sset.contains(out[i].0) && sset.contains(
            out[i].1,
        ) && edge_step(crate::graph::adj_of(es), out[i].0, out[i].1) by {
            if i < rec.len() {
                assert(out[i] == rec[i]);
                assert(edge_step(crate::graph::adj_of(prev), rec[i].0, rec[i].1));
            } else {
                assert(out[i] == tail[i - rec.len()]);
                assert(tail[i - rec.len()].0 == node);
                assert(es.last().1.contains(tail[i - rec.len()].1));
                assert((#[trigger] es[es.len() - 1]).0 == node && es[es.len() - 1].1.contains(
                    tail[i - rec.len()].1,
                ));
                lemma_al_contains_neighbor(es, node, tail[i - rec.len()].1);
            }
        }
    }
}

/// All stored edges of a representation, in storage order: what an
/// edge-induced sample with every node kept must produce.
pub open spec fn all_edges_spec(es: Rep) -> Seq<(usize, usize)>
    decreases es.len(),
{
    if es.len() == 0 {
        Seq::empty()
    } else {
        all_edges_spec(es.drop_last()) + es.last().1.map_values(
            |v: usize| (es.last().0, v),
        )
    }
}

/// One entry contributes all its edges when the node set holds every listed
/// neighbor.
proof fn lemma_entry_induced_full(node: usize, nbs: Seq<usize>, sset: Set<usize>)
    requires
        forall|j: int| 0 <= j < nbs.len() ==> sset.contains(#[trigger] nbs[j]),
    ensures
        entry_induced(node, nbs, sset) == nbs.map_values(|v: usize| (node, v)),
    decreases nbs.len(),
{
    if nbs.len() == 0 {
        assert(entry_induced(node, nbs, sset) =~= nbs.map_values(|v: usize| (node, v)));
    } else {
        let prev = nbs.drop_last();
        assert(forall|j: int| 0 <= j < prev.len() ==> #[trigger] prev[j] == nbs[j]);
        lemma_entry_induced_full(node, prev, sset);
        assert(sset.contains(nbs.last())) by {
            assert(nbs[nbs.len() - 1] == nbs.last());
        }
        assert(entry_induced(node, nbs, sset) =~= nbs.map_values(|v: usize| (node, v))) by {
            assert(entry_induced(node, nbs, sset) == entry_induced(node, prev, sset) + seq![
                (node, nbs.last()),
            ]);
        }
    }
}

/// An edge-induced sample over a node set that holds every key and every
/// listed neighbor is exactly the full stored edge list.
pub proof fn lemma_induced_edges_of_full_sample(es: Rep, sset: Set<usize>)
    requires
        forall|i: int| 0 <= i < es.len() ==> sset.contains((#[trigger] es[i]).0),
        forall|i: int, j: int|
            #![trigger es[i].1[j]]
            0 <= i < es.len() && 0 <= j < es[i].1.len() ==> sset.contains(es[i].1[j]),
    ensures
        induced_edges_spec(es, sset) == all_edges_spec(es),
    decreases es.len(),
{
    if es.len() > 0 {
        let prev = es.drop_last();
        assert(forall|i: int| 0 <= i < prev.len() ==> #[trigger] prev[i] == es[i]);
        lemma_induced_edges_of_full_sample(prev, sset);
        assert(sset.contains(es.last().0)) by {
            assert(es[es.len() - 1] == es.last());
        }
        assert(forall|j: int|
            0 <= j < es.last().1.len() ==> sset.contains(#[trigger] es.last().1[j])) by {
            assert(forall|j: int|
                0 <= j < es[es.len() - 1].1.len() ==> sset.contains(
                    #[trigger] es[es.len() - 1].1[j],
                ));
        }
        lemma_entry_induced_full(es.last().0, es.last().1, sset);
    }
}

/// If some entry of `es` with key `u` lists `v`, then the map view has the edge,
/// provided keys are unique.
proof fn lemma_al_contains_neighbor(es: Rep, u: usize, v: usize)
    requires
        crate::graph::al_wf(es),
        exists|i: int| 0 <= i < es.len() && (#[trigger] es[i]).0 == u && es[i].1.contains(v),
    ensures
        edge_step(crate::graph::adj_of(es), u, v),
{
    let i = choose|i: int| 0 <= i < es.len() && (#[trigger] es[i]).0 == u && es[i].1.contains(v);
    assert(al_contains(es, u));
    let k = al_index(es, u);
    assert(k == i);
}

/// An edge present in a prefix of the entries is present in the whole list,
/// under unique keys.
proof fn lemma_al_prefix_edge(es: Rep, u: usize, v: usize)
    requires
        es.len() > 0,
        edge_step(crate::graph::adj_of(es.drop_last()), u, v),
        crate::graph::al_wf(es),
    ensures
        edge_step(crate::graph::adj_of(es), u, v),
{
    let prev = es.drop_last();
    assert(al_contains(prev, u));
    let i = al_index(prev, u);
    assert(prev[i] == es[i]);
    assert(es[i].1.contains(v));
    lemma_al_contains_neighbor(es, u, v);
}

/// Keeps each stored edge `(u, v)` whose both endpoints are in `sampled_nodes`.
///
/// The result is in storage order: entries in insertion order, each entry's
/// kept neighbors in list order. Both directions of a symmetric edge are kept
/// independently, since the graph stores them independently.
pub fn generate_edge_list(graph: &Graph, sampled_nodes: &Vec<usize>) -> (edge_list: Vec<
    (usize, usize),
>)
    requires
        graph.wf(),
    ensures
        edge_list@ == induced_edges_spec(graph.rep(), sampled_nodes@.to_set()),
{
    let ghost sset = sampled_nodes@.to_set();
    let mut edge_list: Vec<(usize, usize)> = Vec::new();
    let len = graph.entries.len();
    for i in 0..len
        invariant
            graph.wf(),
            len == graph.rep().len(),
            sset == sampled_nodes@.to_set(),
            edge_list@ == induced_edges_spec(graph.rep().take(i as int), sset),
    {
        let ghost prev = graph.rep().take(i as int);
        let node = graph.entries[i].node;
        if contains_id(sampled_nodes, node) {
            let nbs = &graph.entries[i].neighbors;
            let n = nbs.len();
            let ghost before = edge_list@;
            let mut k: usize = 0;
            while k < n
                invariant
                    n == nbs@.len(),
                    k <= n,
                    sset == sampled_nodes@.to_set(),
                    edge_list@ == before + entry_induced(node, nbs@.take(k as int), sset),
                decreases n - k,
            {
                let v = nbs[k];
                proof {
                    assert(nbs@.take(k + 1).drop_last() =~= nbs@.take(k as int));
                    assert(nbs@.take(k + 1).last() == v);
                }
                if contains_id(sampled_nodes, v) {
                    edge_list.push((node, v));
                }
                k += 1;
            }
            proof {
                assert(nbs@.take(n as int) =~= nbs@);
                assert(graph.rep().take(i + 1).drop_last() =~= prev);
                assert(graph.rep().take(i + 1).last() == graph.rep()[i as int]);
                assert(graph.rep()[i as int].0 == node && graph.rep()[i as int].1 == nbs@);
            }
        } else {
            proof {
                assert(graph.rep().take(i + 1).drop_last() =~= prev);
                assert(graph.rep().take(i + 1).last() == graph.rep()[i as int]);
                assert(graph.rep()[i as int].0 == node);
                assert(edge_list@ =~= induced_edges_spec(graph.rep().take(i + 1), sset));
            }
        }
    }
    proof {
        assert(graph.rep().take(len as int) =~= graph.rep());
    }
    edge_list
}

/// The first `n` entries of the mapping in insertion order, with node 0's
/// entry force-included at the end when the graph has one outside that prefix.
///
/// This is node-induced sampling: each kept entry's neighbor list is copied
/// verbatim, so the result may list neighbors that have no entry of their own.
pub fn top_n_by_key_order(graph: &Graph, n: usize) -> (sub: Graph)
    requires
        graph.wf(),
    ensures
        sub.wf(),
        sub.rep() == top_n_spec(graph.rep(), n as int),
{
    let len = graph.entries.len();
    let m = if n < len {
        n
    } else {
        len
    };
    let mut entries: Vec<GraphEntry> = Vec::new();
    let mut has_zero = false;
    proof {
        assert(rep_of(entries@) =~= graph.rep().take(0));
    }
    for i in 0..m
        invariant
            graph.wf(),
            m <= len,
            len == graph.rep().len(),
            crate::graph::rep_of(entries@) == graph.rep().take(i as int),
            has_zero == al_contains(graph.rep().take(i as int), 0),
    {
        let ghost prev = graph.rep().take(i as int);
        let ghost eold = entries@;
        let node = graph.entries[i].node;
        let neighbors = copy_ids(&graph.entries[i].neighbors);
        entries.push(GraphEntry { node, neighbors });
        if node == 0 {
            has_zero = true;
        }
        proof {
            let cur = crate::graph::rep_of(entries@);
            let next = graph.rep().take(i + 1);
            assert(crate::graph::rep_of(eold).len() == eold.len());
            assert(prev.len() == i);
            assert(entries@.len() == eold.len() + 1);
            assert(cur.len() == i + 1);
            assert forall|j: int| 0 <= j < i + 1 implies cur[j] == next[j] by {
                if j < i {
                    assert(entries@[j] == eold[j]);
                    assert(cur[j] == crate::graph::rep_of(eold)[j]);
                    assert(crate::graph::rep_of(eold)[j] == prev[j]);
                    assert(next[j] == graph.rep()[j]);
                    assert(prev[j] == graph.rep()[j]);
                } else {
                    assert(entries@[j].node == graph.entries@[i as int].node);
                    assert(entries@[j].neighbors@ == graph.entries@[i as int].neighbors@);
                    assert(next[j] == graph.rep()[i as int]);
                }
            }
            assert(cur =~= next);
            assert(al_contains(next, 0) == (al_contains(prev, 0) || node == 0)) by {
                if al_contains(next, 0) {
                    let j = al_index(next, 0);
                    assert(0 <= j < next.len() && next[j].0 == 0);
                    if j < i {
                        assert(prev[j] == next[j]);
                        assert(al_contains(prev, 0));
                    } else {
                        assert(next[j] == graph.rep()[i as int]);
                        assert(node == 0);
                    }
                }
                if al_contains(prev, 0) {
                    let j = al_index(prev, 0);
                    assert(0 <= j < prev.len() && prev[j].0 == 0);
                    assert(next[j] == prev[j]);
                    assert(al_contains(next, 0));
                }
                if node == 0 {
                    assert(next[i as int].0 == 0);
                    assert(al_contains(next, 0));
                }
            }
        }
    }
    proof {
        assert(graph.rep().take(m as int) == graph.rep().take(min(n as int, graph.rep().len() as int)));
    }
    if !has_zero {
        match graph.find_index(0) {
            Some(i) => {
                let node = graph.entries[i].node;
                let neighbors = copy_ids(&graph.entries[i].neighbors);
                entries.push(GraphEntry { node, neighbors });
                proof {
                    let cur = crate::graph::rep_of(entries@);
                    assert(al_index(graph.rep(), 0) == i) by {
                        let k = al_index(graph.rep(), 0);
                        assert(0 <= k < graph.rep().len() && graph.rep()[k].0 == 0);
                    }
                    assert(cur =~= top_n_spec(graph.rep(), n as int));
                }
            },
            None => {
                proof {
                    let cur = crate::graph::rep_of(entries@);
                    assert(cur =~= top_n_spec(graph.rep(), n as int));
                }
            },
        }
    } else {
        proof {
            let cur = crate::graph::rep_of(entries@);
            assert(cur =~= top_n_spec(graph.rep(), n as int));
        }
    }
    let sub = Graph { entries };
    proof {
        lemma_top_n_wf(graph.rep(), n as int);
    }
    sub
}

/// The model of `top_n_by_key_order`: the first `n` entries, plus node 0's
/// entry when present in the mapping but not in that prefix.
pub open spec fn top_n_spec(es: Rep, n: int) -> Rep {
    let prefix = es.take(min(n, es.len() as int));
    if al_contains(es, 0) && !al_contains(prefix, 0) {
        prefix.push(es[al_index(es, 0)])
    } else {
        prefix
    }
}

/// `top_n_spec` keeps keys unique.
proof fn lemma_top_n_wf(es: Rep, n: int)
    requires
        0 <= n,
        crate::graph::al_wf(es),
    ensures
        crate::graph::al_wf(top_n_spec(es, n)),
{
    let prefix = es.take(min(n, es.len() as int));
    assert(crate::graph::al_wf(prefix)) by {
        assert(forall|i: int| 0 <= i < prefix.len() ==> #[trigger] prefix[i] == es[i]);
    }
    if al_contains(es, 0) && !al_contains(prefix, 0) {
        let out = prefix.push(es[al_index(es, 0)]);
        assert forall|i: int, j: int| 0 <= i < j < out.len() implies out[i].0 != out[j].0 by {
            if j == out.len() - 1 {
                assert(out[j].0 == 0);
                if out[i].0 == 0 {
                    assert(prefix[i].0 == 0);
                }
            }
        }
    }
}

/// Copies a list of node ids.
pub(crate) fn copy_ids(v: &Vec<usize>) -> (r: Vec<usize>)
    ensures
        r@ == v@,
{
    let mut r: Vec<usize> = Vec::new();
    let len = v.len();
    for i in 0..len
        invariant
            len == v@.len(),
            r@ == v@.take(i as int),
    {
        r.push(v[i]);
        proof {
            assert(r@ =~= v@.take(i + 1));
        }
    }
    proof {
        assert(v@.take(len as int) =~= v@);
    }
    r
}

} // verus!
