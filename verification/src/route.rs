//! Two-node shortest-path reconstruction: a breadth-first expansion from the
//! start node that records predecessors, stops early once the end node is
//! dequeued, and walks the predecessor chain backward.

use vstd::prelude::*;
use crate::graph::{Graph, contains_id};
use crate::reach::{
    component, connects, edge_step, is_path, is_shortest_dist, lemma_closed_set_contains_component,
    lemma_component_finite, lemma_reaches_self, reaches,
};
use crate::sample::lemma_queue_in_component;
use crate::traverse::{lemma_sp_advance, lemma_sp_push, node_at_depth, sp_state};

verus! {

/// The barrier argument: any walk from the start either reaches its `m`-th
/// node among the discovered ones within depth `m`, or crosses the
/// still-unprocessed part of the queue no deeper than its position.
proof fn lemma_sp_barrier(
    gr: Graph,
    s: usize,
    q: Seq<usize>,
    pred: Seq<usize>,
    dep: Seq<int>,
    head: usize,
    p: Seq<usize>,
    m: int,
)
    requires
        sp_state(gr, s, q, pred, dep, head as int),
        head < q.len(),
        is_path(gr.adj(), p),
        p.first() == s,
        0 <= m < p.len(),
    ensures
        exists|i: int, mm: int|
            #![trigger q[i], p[mm]]
            0 <= i < q.len() && 0 <= mm <= m && q[i] == p[mm] && dep[i] <= mm && (mm == m
                || head <= i),
    decreases m,
{
    let g = gr.adj();
    if m == 0 {
        assert(q[0] == p[0] && dep[0] <= 0 && (0 == m || head <= 0));
    } else {
        lemma_sp_barrier(gr, s, q, pred, dep, head, p, m - 1);
        let (i, mm): (int, int) = choose|i: int, mm: int|
            #![trigger q[i], p[mm]]
            0 <= i < q.len() && 0 <= mm <= m - 1 && q[i] == p[mm] && dep[i] <= mm && (mm
                == m - 1 || head <= i);
        if head <= i {
            assert(q[i] == p[mm] && dep[i] <= mm && head <= i);
        } else {
            assert(mm == m - 1);
            assert(edge_step(g, p[m - 1], p[m]));
            assert(g[q[i]] == gr.spec_neighbors(q[i]));
            let k = choose|k: int|
                0 <= k < gr.spec_neighbors(q[i]).len() && gr.spec_neighbors(q[i])[k] == p[m];
            assert(node_at_depth(q, dep, gr.spec_neighbors(q[i])[k], dep[i] + 1));
            let t = choose|t: int|
                0 <= t < q.len() && q[t] == p[m] && dep[t] <= dep[i] + 1;
            assert(q[t] == p[m] && dep[t] <= m && (m == m || head <= t));
        }
    }
}

/// The shortest path from `start_node` to `end_node`, as the inclusive node
/// sequence, or the empty sequence when `end_node` is unreachable.
///
/// A breadth-first expansion records each newly discovered node's
/// predecessor; it stops as soon as `end_node` is dequeued, and the
/// predecessor chain is walked backward to yield the path in start-to-end
/// order. The result is empty exactly when no walk connects the two nodes,
/// and otherwise is a minimum-hop walk; `shortest_path(g, s, s)` is `[s]`.
pub fn shortest_path(graph: &Graph, start_node: usize, end_node: usize) -> (path: Vec<usize>)
    requires
        graph.wf(),
    ensures
        path@.len() == 0 <==> !reaches(graph.adj(), start_node, end_node),
        path@.len() > 0 ==> connects(graph.adj(), path@, start_node, end_node)
            && is_shortest_dist(graph.adj(), start_node, end_node, (path@.len() - 1) as nat),
{
    let ghost g = graph.adj();
    if start_node == end_node {
        let mut path: Vec<usize> = Vec::new();
        path.push(start_node);
        proof {
            lemma_reaches_self(g, start_node);
            assert(connects(g, path@, start_node, end_node));
            assert(path@.len() == 0 + 1);
            assert(dist_at_most_here(g, start_node, end_node, path@));
        }
        return path;
    }
    let mut q: Vec<usize> = Vec::new();
    q.push(start_node);
    let mut pred: Vec<usize> = Vec::new();
    pred.push(0);
    let ghost mut dep: Seq<int> = seq![0];
    let mut head: usize = 0;
    proof {
        lemma_reaches_self(g, start_node);
        lemma_component_finite(graph.rep(), start_node);
        lemma_queue_in_component(*graph, q@, start_node);
    }
    while head < q.len()
        invariant
            graph.wf(),
            g == graph.adj(),
            sp_state(*graph, start_node, q@, pred@, dep, head as int),
            head <= q@.len(),
            head < q@.len() ==> dep[q@.len() - 1] <= dep[head as int] + 1,
            forall|j: int| 0 <= j < head ==> q@[j] != end_node,
            q@.len() <= component(g, start_node).len(),
        ensures
            sp_state(*graph, start_node, q@, pred@, dep, head as int),
            head <= q@.len(),
            forall|j: int| 0 <= j < head ==> q@[j] != end_node,
            head == q@.len() || (head < q@.len() && q@[head as int] == end_node),
        decreases component(g, start_node).len() - head,
    {
        let node = q[head];
        if node == end_node {
            break;
        }
        match graph.get(node) {
            Some(nbs) => {
                let n = nbs.len();
                let ghost q0 = q@;
                let mut k: usize = 0;
                while k < n
                    invariant
                        graph.wf(),
                        g == graph.adj(),
                        n == nbs@.len(),
                        nbs@ == graph.spec_neighbors(node),
                        graph.spec_contains(node),
                        k <= n,
                        head < q@.len(),
                        q@[head as int] == node,
                        sp_state(*graph, start_node, q@, pred@, dep, head as int),
                        dep[q@.len() - 1] <= dep[head as int] + 1,
                        forall|j: int| 0 <= j < head ==> q@[j] != end_node,
                        forall|j: int|
                            0 <= j < k ==> node_at_depth(
                                q@,
                                dep,
                                #[trigger] nbs@[j],
                                dep[head as int] + 1,
                            ),
                        q0.is_prefix_of(q@),
                        q@.len() <= component(g, start_node).len(),
                    decreases n - k,
                {
                    let w = nbs[k];
                    proof {
                        assert(g.contains_key(node));
                        assert(g[node] == graph.spec_neighbors(node));
                        assert(edge_step(g, node, w));
                    }
                    if !contains_id(&q, w) {
                        let ghost qb = q@;
                        let ghost depb = dep;
                        proof {
                            lemma_sp_push(*graph, start_node, q@, pred@, dep, head, w);
                        }
                        q.push(w);
                        pred.push(head);
                        proof {
                            dep = dep.push(depb[head as int] + 1);
                            assert(forall|j: int| 0 <= j < qb.len() ==> #[trigger] q@[j] == qb[j]);
                            assert forall|j: int|
                                0 <= j < k + 1 implies node_at_depth(
                                q@,
                                dep,
                                #[trigger] nbs@[j],
                                dep[head as int] + 1,
                            ) by {
                                if j < k {
                                    let t = choose|t: int|
                                        0 <= t < qb.len() && qb[t] == nbs@[j] && depb[t]
                                            <= depb[head as int] + 1;
                                    assert(q@[t] == nbs@[j] && dep[t] <= dep[head as int] + 1);
                                } else {
                                    assert(q@[q@.len() - 1] == w && dep[q@.len() - 1]
                                        <= dep[head as int] + 1);
                                }
                            }
                            lemma_queue_in_component(*graph, q@, start_node);
                        }
                    } else {
                        proof {
                            assert(node_at_depth(q@, dep, w, dep[head as int] + 1)) by {
                                let t = choose|t: int| 0 <= t < q@.len() && q@[t] == w;
                                assert(edge_step(g, q@[head as int], q@[t]));
                                assert(dep[t] <= dep[head as int] + 1);
                            }
                        }
                    }
                    k += 1;
                }
                proof {
                    lemma_sp_advance(*graph, start_node, q@, pred@, dep, head);
                }
            },
            None => {
                proof {
                    assert(graph.spec_neighbors(node) =~= Seq::<usize>::empty());
                    lemma_sp_advance(*graph, start_node, q@, pred@, dep, head);
                }
            },
        }
        head += 1;
        proof {
            if head < q@.len() {
                assert(dep[head - 1] <= dep[head as int]);
            }
        }
    }
    if head >= q.len() {
        // the queue was exhausted without meeting `end_node`: it is unreachable
        proof {
            let vset = q@.to_set();
            assert(vset.contains(start_node)) by {
                assert(q@[0] == start_node);
            }
            if reaches(g, start_node, end_node) {
                assert forall|u: usize, v: usize|
                    vset.contains(u) && #[trigger] edge_step(g, u, v) implies vset.contains(v) by {
                    let j = choose|j: int| 0 <= j < q@.len() && q@[j] == u;
                    assert(g[u] == graph.spec_neighbors(u));
                    let k = choose|k: int| 0 <= k < g[u].len() && g[u][k] == v;
                    assert(node_at_depth(q@, dep, graph.spec_neighbors(q@[j])[k], dep[j] + 1));
                    let t = choose|t: int|
                        0 <= t < q@.len() && q@[t] == v && dep[t] <= dep[j] + 1;
                    assert(q@[t] == v);
                }
                lemma_closed_set_contains_component(g, vset, start_node, end_node);
                let i = choose|i: int| 0 <= i < q@.len() && q@[i] == end_node;
                assert(q@[i] != end_node);
            }
        }
        return Vec::new();
    }
    // `end_node` was dequeued at `head`: its depth is minimal
    let ghost dend = dep[head as int];
    proof {
        assert(q@[head as int] == end_node);
        assert forall|p: Seq<usize>| connects(g, p, start_node, end_node) implies p.len() >= dend
            + 1 by {
            lemma_sp_barrier(*graph, start_node, q@, pred@, dep, head, p, p.len() - 1);
            let (i, mm): (int, int) = choose|i: int, mm: int|
                #![trigger q@[i], p[mm]]
                0 <= i < q@.len() && 0 <= mm <= p.len() - 1 && q@[i] == p[mm] && dep[i]
                    <= mm && (mm == p.len() - 1 || head <= i);
            if mm == p.len() - 1 {
                assert(q@[i] == end_node);
                assert(i == head) by {
                    if i != head {
                        assert(q@[i] != q@[head as int]);
                    }
                }
            } else {
                assert(dep[head as int] <= dep[i]);
            }
        }
    }
    // walk the predecessor chain backward from `end_node`
    let mut rev: Vec<usize> = Vec::new();
    rev.push(q[head]);
    let mut cur: usize = head;
    while cur != 0
        invariant
            graph.wf(),
            g == graph.adj(),
            sp_state(*graph, start_node, q@, pred@, dep, head as int),
            cur < q@.len(),
            head < q@.len(),
            q@[head as int] == end_node,
            dend == dep[head as int],
            rev@.len() >= 1,
            rev@[0] == end_node,
            rev@.last() == q@[cur as int],
            dep[cur as int] + rev@.len() == dend + 1,
            forall|i: int|
                0 <= i < rev@.len() - 1 ==> edge_step(g, #[trigger] rev@[i + 1], rev@[i]),
        decreases cur,
    {
        let pj = pred[cur];
        proof {
            assert(1 <= cur < q@.len());
            assert(pred@[cur as int] == pj);
            assert(pj < cur && edge_step(g, q@[pj as int], q@[cur as int]) && dep[cur as int]
                == dep[pj as int] + 1);
        }
        let ghost rev0 = rev@;
        rev.push(q[pj]);
        proof {
            assert(forall|i: int| 0 <= i < rev0.len() ==> #[trigger] rev@[i] == rev0[i]);
            assert(rev@.last() == q@[pj as int]);
            assert forall|i: int|
                0 <= i < rev@.len() - 1 implies edge_step(g, #[trigger] rev@[i + 1], rev@[i]) by {
                if i < rev0.len() - 1 {
                    assert(rev@[i + 1] == rev0[i + 1] && rev@[i] == rev0[i]);
                } else {
                    assert(rev@[i] == rev0.last());
                    assert(rev0.last() == q@[cur as int]);
                }
            }
        }
        cur = pj;
    }
    // reverse into start-to-end order
    let rl = rev.len();
    let mut path: Vec<usize> = Vec::new();
    proof {
        assert(rev@.last() == q@[0]);
        assert(dep[0] == 0);
        assert(rev@.len() == dend + 1);
    }
    let mut i: usize = 0;
    while i < rl
        invariant
            rl == rev@.len(),
            i <= rl,
            path@.len() == i,
            forall|j: int| 0 <= j < i ==> #[trigger] path@[j] == rev@[rl - 1 - j],
        decreases rl - i,
    {
        path.push(rev[rl - 1 - i]);
        i += 1;
    }
    proof {
        assert(path@.len() == dend + 1);
        assert(path@.first() == rev@[rl - 1] && rev@[rl - 1] == rev@.last());
        assert(path@.last() == rev@[0]);
        assert(is_path(g, path@)) by {
            assert forall|j: int|
                0 <= j < path@.len() - 1 implies edge_step(g, #[trigger] path@[j], path@[j + 1]) by {
                assert(path@[j] == rev@[rl - 1 - j]);
                assert(path@[j + 1] == rev@[rl - 1 - (j + 1)]);
                assert(edge_step(g, rev@[(rl - 2 - j) + 1], rev@[rl - 2 - j]));
            }
        }
        assert(connects(g, path@, start_node, end_node));
        assert(dist_at_most_here(g, start_node, end_node, path@));
    }
    path
}

/// A walk that connects two nodes witnesses both reachability and an upper
/// distance bound of its own hop count.
spec fn dist_at_most_here(
    g: Map<usize, Seq<usize>>,
    s: usize,
    t: usize,
    p: Seq<usize>,
) -> bool {
    connects(g, p, s, t) && crate::reach::dist_at_most(g, s, t, (p.len() - 1) as nat)
}

} // verus!
