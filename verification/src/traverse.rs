//! Breadth-first traversal: the visitation order of the connected component of
//! a start node.

use vstd::prelude::*;
use crate::graph::{Graph, contains_id};
use crate::reach::{
    component, connects, dist_at_most, edge_step, is_path, is_shortest_dist,
    lemma_closed_set_contains_component, lemma_component_finite, lemma_reaches_self,
    lemma_reaches_step, reaches,
};
use vstd::set_lib::lemma_len_subset;

verus! {

/// Depths never decrease along the queue: nodes are discovered in
/// breadth-first layers.
pub open spec fn deps_sorted(dep: Seq<int>) -> bool {
    forall|i: int, j: int| 0 <= i <= j < dep.len() ==> #[trigger] dep[i] <= #[trigger] dep[j]
}

/// Any edge between two discovered nodes spans at most one layer downward.
pub open spec fn edge_depth_ok(g: Map<usize, Seq<usize>>, q: Seq<usize>, dep: Seq<int>) -> bool {
    forall|i: int, j: int|
        0 <= i < q.len() && 0 <= j < q.len() && #[trigger] edge_step(g, q[i], q[j]) ==> dep[j]
            <= dep[i] + 1
}

/// `w` was discovered at depth at most `bound`.
pub open spec fn node_at_depth(q: Seq<usize>, dep: Seq<int>, w: usize, bound: int) -> bool {
    exists|i: int| 0 <= i < q.len() && q[i] == w && dep[i] <= bound
}

/// Every neighbor of a dequeued node is discovered, within one layer.
pub open spec fn sp_expanded(gr: Graph, q: Seq<usize>, dep: Seq<int>, head: int) -> bool {
    forall|j: int, k: int|
        #![trigger gr.spec_neighbors(q[j])[k]]
        0 <= j < head && 0 <= k < gr.spec_neighbors(q[j]).len() ==> node_at_depth(
            q,
            dep,
            gr.spec_neighbors(q[j])[k],
            dep[j] + 1,
        )
}

/// The whole search state: queue, predecessor indices, and depths.
pub open spec fn sp_state(
    gr: Graph,
    s: usize,
    q: Seq<usize>,
    pred: Seq<usize>,
    dep: Seq<int>,
    head: int,
) -> bool {
    &&& q.len() >= 1
    &&& pred.len() == q.len()
    &&& dep.len() == q.len()
    &&& q[0] == s
    &&& dep[0] == 0
    &&& q.no_duplicates()
    &&& forall|i: int| 0 <= i < q.len() ==> 0 <= #[trigger] dep[i]
    &&& forall|i: int| 0 <= i < q.len() ==> reaches(gr.adj(), s, #[trigger] q[i])
    &&& forall|i: int|
        1 <= i < q.len() ==> 0 <= (#[trigger] pred[i]) < i && edge_step(
            gr.adj(),
            q[pred[i] as int],
            q[i],
        ) && dep[i] == dep[pred[i] as int] + 1
    &&& deps_sorted(dep)
    &&& edge_depth_ok(gr.adj(), q, dep)
    &&& sp_expanded(gr, q, dep, head)
}

/// Discovering one new neighbor of the node being processed keeps the whole
/// search state.
pub(crate) proof fn lemma_sp_push(
    gr: Graph,
    s: usize,
    q: Seq<usize>,
    pred: Seq<usize>,
    dep: Seq<int>,
    head: usize,
    w: usize,
)
    requires
        sp_state(gr, s, q, pred, dep, head as int),
        head < q.len(),
        !q.contains(w),
        edge_step(gr.adj(), q[head as int], w),
        dep[q.len() - 1] <= dep[head as int] + 1,
    ensures
        sp_state(
            gr,
            s,
            q.push(w),
            pred.push(head),
            dep.push(dep[head as int] + 1),
            head as int,
        ),
        dep.push(dep[head as int] + 1)[q.len() as int] == dep[head as int] + 1,
        node_at_depth(q.push(w), dep.push(dep[head as int] + 1), w, dep[head as int] + 1),
{
    let g = gr.adj();
    let q1 = q.push(w);
    let pred1 = pred.push(head);
    let dep1 = dep.push(dep[head as int] + 1);
    let newi = q.len() as int;
    assert(q1[newi] == w && dep1[newi] == dep[head as int] + 1 && pred1[newi] == head);
    assert(forall|i: int| 0 <= i < q.len() ==> #[trigger] q1[i] == q[i]);
    assert(forall|i: int| 0 <= i < dep.len() ==> #[trigger] dep1[i] == dep[i]);
    assert(forall|i: int| 0 <= i < pred.len() ==> #[trigger] pred1[i] == pred[i]);
    lemma_reaches_step(g, s, q[head as int], w);
    // the chain invariant at the new index
    assert(edge_step(g, q1[pred1[newi] as int], q1[newi]));
    // sortedness: the new depth is at least every existing one
    assert(deps_sorted(dep1)) by {
        assert forall|i: int, j: int| 0 <= i <= j < dep1.len() implies #[trigger] dep1[i]
            <= #[trigger] dep1[j] by {
            if j == newi && i < newi {
                assert(dep[i] <= dep[q.len() - 1]);
            }
        }
    }
    // edges to and from the new node span at most one layer
    assert(edge_depth_ok(g, q1, dep1)) by {
        assert forall|i: int, j: int|
            0 <= i < q1.len() && 0 <= j < q1.len() && #[trigger] edge_step(g, q1[i], q1[j])
            implies dep1[j] <= dep1[i] + 1 by {
            if i < newi && j < newi {
                assert(edge_step(g, q[i], q[j]));
            } else if j == newi && i < newi {
                // an edge from a dequeued node to w would have discovered w
                if i < head {
                    assert(g[q[i]] == gr.spec_neighbors(q[i]));
                    let k = choose|k: int|
                        0 <= k < gr.spec_neighbors(q[i]).len() && gr.spec_neighbors(q[i])[k] == w;
                    assert(node_at_depth(q, dep, gr.spec_neighbors(q[i])[k], dep[i] + 1));
                    let t = choose|t: int| 0 <= t < q.len() && q[t] == w && dep[t] <= dep[i] + 1;
                    assert(q.contains(w));
                    assert(false);
                } else {
                    assert(dep[head as int] <= dep[i]);
                }
            } else if i == newi && j < newi {
                assert(dep[j] <= dep[q.len() - 1]);
            }
        }
    }
    // expansion so far still holds: witnesses keep their indices
    assert(sp_expanded(gr, q1, dep1, head as int)) by {
        assert forall|j: int, k: int|
            #![trigger gr.spec_neighbors(q1[j])[k]]
            0 <= j < head && 0 <= k < gr.spec_neighbors(q1[j]).len() implies node_at_depth(
            q1,
            dep1,
            gr.spec_neighbors(q1[j])[k],
            dep1[j] + 1,
        ) by {
            assert(q1[j] == q[j]);
            assert(node_at_depth(q, dep, gr.spec_neighbors(q[j])[k], dep[j] + 1));
            let t = choose|t: int|
                0 <= t < q.len() && q[t] == gr.spec_neighbors(q[j])[k] && dep[t] <= dep[j] + 1;
            assert(q1[t] == q[t] && dep1[t] == dep[t]);
        }
    }
    assert(q1.no_duplicates()) by {
        assert forall|i: int, j: int| 0 <= i < j < q1.len() implies q1[i] != q1[j] by {
            if j == newi {
                assert(q1[i] == q[i]);
                assert(q.contains(q[i]));
            }
        }
    }
}

/// Once every neighbor of the node at `head` is discovered within one layer,
/// the expansion front moves past it.
pub(crate) proof fn lemma_sp_advance(gr: Graph, s: usize, q: Seq<usize>, pred: Seq<usize>, dep: Seq<int>, head: usize)
    requires
        sp_state(gr, s, q, pred, dep, head as int),
        head < q.len(),
        forall|k: int|
            0 <= k < gr.spec_neighbors(q[head as int]).len() ==> node_at_depth(
                q,
                dep,
                #[trigger] gr.spec_neighbors(q[head as int])[k],
                dep[head as int] + 1,
            ),
    ensures
        sp_state(gr, s, q, pred, dep, head + 1),
{
    assert forall|j: int, k: int|
        #![trigger gr.spec_neighbors(q[j])[k]]
        0 <= j < head + 1 && 0 <= k < gr.spec_neighbors(q[j]).len() implies node_at_depth(
        q,
        dep,
        gr.spec_neighbors(q[j])[k],
        dep[j] + 1,
    ) by {
        if j < head {
            assert(sp_expanded(gr, q, dep, head as int));
        }
    }
}

/// The first `head` entries of the queue have had all their neighbors enqueued.
pub open spec fn prefix_expanded(g: Graph, q: Seq<usize>, head: int) -> bool {
    forall|j: int, k: int|
        #![trigger g.spec_neighbors(q[j])[k]]
        0 <= j < head && 0 <= k < g.spec_neighbors(q[j]).len() ==> q.contains(
            g.spec_neighbors(q[j])[k],
        )
}

/// A duplicate-free queue of nodes reachable from `s` is no longer than the
/// component of `s`.
proof fn lemma_queue_bounded(g: Graph, q: Seq<usize>, s: usize)
    requires
        q.no_duplicates(),
        forall|i: int| 0 <= i < q.len() ==> reaches(g.adj(), s, #[trigger] q[i]),
    ensures
        q.len() <= component(g.adj(), s).len(),
{
    lemma_component_finite(g.rep(), s);
    q.unique_seq_to_set();
    assert forall|t: usize| q.to_set().contains(t) implies component(g.adj(), s).contains(t) by {
        let i = choose|i: int| 0 <= i < q.len() && q[i] == t;
        assert(reaches(g.adj(), s, q[i]));
    }
    lemma_len_subset(q.to_set(), component(g.adj(), s));
}

/// Walking the predecessor chain realizes every recorded depth as the hop
/// count of an actual walk.
proof fn lemma_chain_realizes(gr: Graph, s: usize, q: Seq<usize>, pred: Seq<usize>, dep: Seq<int>, i: int)
    requires
        sp_state(gr, s, q, pred, dep, 0),
        0 <= i < q.len(),
    ensures
        dist_at_most(gr.adj(), s, q[i], dep[i] as nat),
    decreases i,
{
    let g = gr.adj();
    if i == 0 {
        let p = seq![s];
        assert(connects(g, p, s, s) && p.len() == dep[0] + 1);
    } else {
        let j = pred[i] as int;
        lemma_chain_realizes(gr, s, q, pred, dep, j);
        let p = choose|p: Seq<usize>| connects(g, p, s, q[j]) && p.len() == dep[j] + 1;
        let p1 = p.push(q[i]);
        assert(p1.last() == q[i]);
        assert(forall|t: int| 0 <= t < p.len() ==> #[trigger] p1[t] == p[t]);
        assert(is_path(g, p1)) by {
            assert(forall|t: int|
                0 <= t < p1.len() - 1 ==> edge_step(g, #[trigger] p1[t], p1[t + 1])) by {
                assert(p1[p.len() - 1] == q[j]);
            }
        }
        assert(connects(g, p1, s, q[i]) && p1.len() == dep[i] + 1);
    }
}

/// Once every dequeued node is expanded, any walk from the start ends at a
/// discovered node no deeper than the walk's hop count.
proof fn lemma_layer_lower_bound(gr: Graph, s: usize, q: Seq<usize>, dep: Seq<int>, p: Seq<usize>)
    requires
        q.len() >= 1,
        dep.len() == q.len(),
        q[0] == s,
        dep[0] == 0,
        sp_expanded(gr, q, dep, q.len() as int),
        is_path(gr.adj(), p),
        p.first() == s,
    ensures
        exists|t: int| 0 <= t < q.len() && q[t] == p.last() && #[trigger] dep[t] <= p.len() - 1,
    decreases p.len(),
{
    let g = gr.adj();
    if p.len() == 1 {
        assert(q[0] == p.last() && dep[0] <= p.len() - 1);
    } else {
        let pre = p.drop_last();
        assert(is_path(g, pre)) by {
            assert(forall|t: int|
                0 <= t < pre.len() - 1 ==> edge_step(g, #[trigger] pre[t], pre[t + 1])) by {
                assert(forall|t: int|
                    0 <= t < pre.len() - 1 ==> #[trigger] pre[t] == p[t] && pre[t + 1] == p[t
                        + 1]);
            }
        }
        assert(pre.first() == p.first());
        lemma_layer_lower_bound(gr, s, q, dep, pre);
        let t0 = choose|t: int|
            0 <= t < q.len() && q[t] == pre.last() && #[trigger] dep[t] <= pre.len() - 1;
        assert(edge_step(g, p[p.len() - 2], p.last()));
        assert(pre.last() == p[p.len() - 2]);
        assert(g[q[t0]] == gr.spec_neighbors(q[t0]));
        let k = choose|k: int|
            0 <= k < gr.spec_neighbors(q[t0]).len() && gr.spec_neighbors(q[t0])[k] == p.last();
        assert(node_at_depth(q, dep, gr.spec_neighbors(q[t0])[k], dep[t0] + 1));
        let t = choose|t: int| 0 <= t < q.len() && q[t] == p.last() && dep[t] <= dep[t0] + 1;
        assert(dep[t] <= p.len() - 1);
    }
}

/// Breadth-first walk from `start_node`.
///
/// The result is the visitation order: it begins with `start_node`, visits
/// every node exactly once, visits exactly the nodes reachable from
/// `start_node`, and so has the length of that connected component. Nodes are
/// visited in layers: some non-decreasing depth sequence assigns every
/// visited node its exact least hop count from `start_node`. Neighbors are
/// expanded in adjacency-list order; a `start_node` absent from the graph
/// yields the single-element order `[start_node]`.
pub fn bfs(graph: &Graph, start_node: usize) -> (order: Vec<usize>)
    requires
        graph.wf(),
    ensures
        order@.len() >= 1,
        order@.first() == start_node,
        order@.no_duplicates(),
        order@.to_set() == component(graph.adj(), start_node),
        order@.len() == component(graph.adj(), start_node).len(),
        exists|dep: Seq<int>|
            #![trigger deps_sorted(dep)]
            dep.len() == order@.len() && deps_sorted(dep) && (forall|i: int|
                0 <= i < order@.len() ==> 0 <= #[trigger] dep[i] && is_shortest_dist(
                    graph.adj(),
                    start_node,
                    order@[i],
                    dep[i] as nat,
                )),
{
    let ghost g = graph.adj();
    let mut q: Vec<usize> = Vec::new();
    q.push(start_node);
    let ghost mut pred: Seq<usize> = seq![0];
    let ghost mut dep: Seq<int> = seq![0];
    let mut head: usize = 0;
    proof {
        lemma_reaches_self(g, start_node);
        lemma_component_finite(graph.rep(), start_node);
        lemma_queue_bounded(*graph, q@, start_node);
    }
    while head < q.len()
        invariant
            graph.wf(),
            g == graph.adj(),
            sp_state(*graph, start_node, q@, pred, dep, head as int),
            head <= q@.len(),
            head < q@.len() ==> dep[q@.len() - 1] <= dep[head as int] + 1,
            q@.len() <= component(g, start_node).len(),
        decreases component(g, start_node).len() - head,
    {
        let node = q[head];
        match graph.get(node) {
            Some(nbs) => {
                let n = nbs.len();
                let ghost q0 = q@;
                let mut k: usize = 0;
                while k < n
                    invariant
                        graph.wf(),
                        g == graph.adj(),
                        n == nbs@.len(),
                        nbs@ == graph.spec_neighbors(node),
                        graph.spec_contains(node),
                        k <= n,
                        head < q@.len(),
                        q@[head as int] == node,
                        sp_state(*graph, start_node, q@, pred, dep, head as int),
                        dep[q@.len() - 1] <= dep[head as int] + 1,
                        forall|j: int|
                            0 <= j < k ==> node_at_depth(
                                q@,
                                dep,
                                #[trigger] nbs@[j],
                                dep[head as int] + 1,
                            ),
                        q0.is_prefix_of(q@),
                        q@.len() <= component(g, start_node).len(),
                    decreases n - k,
                {
                    let v = nbs[k];
                    proof {
                        assert(g.contains_key(node));
                        assert(g[node] == graph.spec_neighbors(node));
                        assert(edge_step(g, node, v));
                    }
                    if !contains_id(&q, v) {
                        let ghost qb = q@;
                        let ghost depb = dep;
                        proof {
                            lemma_sp_push(*graph, start_node, q@, pred, dep, head, v);
                        }
                        q.push(v);
                        proof {
                            pred = pred.push(head);
                            dep = dep.push(depb[head as int] + 1);
                            assert(forall|j: int| 0 <= j < qb.len() ==> #[trigger] q@[j] == qb[j]);
                            assert forall|j: int|
                                0 <= j < k + 1 implies node_at_depth(
                                q@,
                                dep,
                                #[trigger] nbs@[j],
                                dep[head as int] + 1,
                            ) by {
                                if j < k {
                                    let t = choose|t: int|
                                        0 <= t < qb.len() && qb[t] == nbs@[j] && depb[t]
                                            <= depb[head as int] + 1;
                                    assert(q@[t] == nbs@[j] && dep[t] <= dep[head as int] + 1);
                                } else {
                                    assert(q@[q@.len() - 1] == v && dep[q@.len() - 1]
                                        <= dep[head as int] + 1);
                                }
                            }
                            lemma_queue_bounded(*graph, q@, start_node);
                        }
                    } else {
                        proof {
                            assert(node_at_depth(q@, dep, v, dep[head as int] + 1)) by {
                                let t = choose|t: int| 0 <= t < q@.len() && q@[t] == v;
                                assert(edge_step(g, q@[head as int], q@[t]));
                                assert(dep[t] <= dep[head as int] + 1);
                            }
                        }
                    }
                    k += 1;
                }
                proof {
                    lemma_sp_advance(*graph, start_node, q@, pred, dep, head);
                }
            },
            None => {
                proof {
                    assert(graph.spec_neighbors(node) =~= Seq::<usize>::empty());
                    lemma_sp_advance(*graph, start_node, q@, pred, dep, head);
                }
            },
        }
        head += 1;
        proof {
            if head < q@.len() {
                assert(dep[head - 1] <= dep[head as int]);
            }
        }
    }
    proof {
        let vset = q@.to_set();
        assert(vset.contains(start_node)) by {
            assert(q@[0] == start_node);
        }
        assert forall|t: usize| component(g, start_node).contains(t) implies vset.contains(t) by {
            assert forall|u: usize, v: usize|
                vset.contains(u) && #[trigger] edge_step(g, u, v) implies vset.contains(v) by {
                let j = choose|j: int| 0 <= j < q@.len() && q@[j] == u;
                assert(g[u] == graph.spec_neighbors(u));
                let k = choose|k: int| 0 <= k < g[u].len() && g[u][k] == v;
                assert(node_at_depth(q@, dep, graph.spec_neighbors(q@[j])[k], dep[j] + 1));
                let t2 = choose|t2: int|
                    0 <= t2 < q@.len() && q@[t2] == v && dep[t2] <= dep[j] + 1;
                assert(q@[t2] == v);
            }
            lemma_closed_set_contains_component(g, vset, start_node, t);
        }
        assert forall|t: usize| vset.contains(t) implies component(g, start_node).contains(t) by {
            let i = choose|i: int| 0 <= i < q@.len() && q@[i] == t;
            assert(reaches(g, start_node, q@[i]));
        }
        assert(vset =~= component(g, start_node));
        q@.unique_seq_to_set();
        assert forall|i: int|
            0 <= i < q@.len() implies 0 <= #[trigger] dep[i] && is_shortest_dist(
            g,
            start_node,
            q@[i],
            dep[i] as nat,
        ) by {
            assert(sp_state(*graph, start_node, q@, pred, dep, 0)) by {
                assert(sp_expanded(*graph, q@, dep, 0));
            }
            lemma_chain_realizes(*graph, start_node, q@, pred, dep, i);
            assert forall|p: Seq<usize>| connects(g, p, start_node, q@[i]) implies p.len()
                >= dep[i] + 1 by {
                lemma_layer_lower_bound(*graph, start_node, q@, dep, p);
                let t = choose|t: int|
                    0 <= t < q@.len() && q@[t] == p.last() && #[trigger] dep[t] <= p.len() - 1;
                assert(q@[t] == q@[i]);
                if t != i {
                    assert(q@[t] != q@[i]);
                }
            }
        }
        assert(deps_sorted(dep));
    }
    q
}

} // verus!
