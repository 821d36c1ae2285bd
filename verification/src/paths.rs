//! Single-source shortest-path distances over unit-weight edges, computed
//! with a min-priority frontier and the standard stale-entry guard.

use vstd::prelude::*;
use crate::dist::{
    DistanceMap, DmRep, dm_contains, dm_index, dm_value, dm_wf, finite_count, dm_pot,
    lemma_dm_index_unique, lemma_fc_bounds, lemma_fc_update, lemma_pot_update, lemma_pot_nonneg,
};
use crate::graph::{Graph, Rep, al_contains, al_index, known_node};
use crate::reach::{
    connects, dist_at_most, edge_step, is_path, is_shortest_dist, lemma_reaches_self, reaches,
};

verus! {

/// Every listed neighbor of `n` has a recorded finite distance at most one
/// hop beyond `n`'s.
pub open spec fn dist_relaxed_at(g: Map<usize, Seq<usize>>, es: DmRep, n: usize) -> bool {
    g.contains_key(n) ==> forall|k: int|
        0 <= k < g[n].len() ==> dm_contains(es, #[trigger] g[n][k]) && dm_value(
            es,
            g[n][k],
        ) is Some && dm_value(es, g[n][k]).unwrap() <= dm_value(es, n).unwrap() + 1
}

/// As `dist_relaxed_at`, for the first `k` listed neighbors only.
pub open spec fn dist_relaxed_upto(g: Map<usize, Seq<usize>>, es: DmRep, n: usize, k: int) -> bool {
    g.contains_key(n) ==> forall|t: int|
        0 <= t < k && t < g[n].len() ==> dm_contains(es, #[trigger] g[n][t]) && dm_value(
            es,
            g[n][t],
        ) is Some && dm_value(es, g[n][t]).unwrap() <= dm_value(es, n).unwrap() + 1
}

/// The frontier invariant: every queued entry names a node whose recorded
/// distance is finite and at most the queued priority.
pub open spec fn frontier_sound(front: Seq<(usize, usize)>, es: DmRep) -> bool {
    forall|fi: int|
        0 <= fi < front.len() ==> dm_contains(es, (#[trigger] front[fi]).1) && dm_value(
            es,
            front[fi].1,
        ) is Some && dm_value(es, front[fi].1).unwrap() <= front[fi].0
}

/// The cover invariant: every node with a finite recorded distance either has
/// a frontier entry carrying exactly that distance, or has all its neighbors
/// relaxed already.
pub open spec fn covered(
    g: Map<usize, Seq<usize>>,
    front: Seq<(usize, usize)>,
    es: DmRep,
    n: usize,
) -> bool {
    dm_contains(es, n) && dm_value(es, n) is Some ==> (exists|fi: int|
        0 <= fi < front.len() && #[trigger] front[fi] == (dm_value(es, n).unwrap(), n))
        || dist_relaxed_at(g, es, n)
}

/// The realizability invariant: every finite recorded distance is witnessed
/// by a walk of that many hops.
pub open spec fn realizable(g: Map<usize, Seq<usize>>, es: DmRep, s: usize) -> bool {
    forall|n: usize|
        dm_contains(es, n) && #[trigger] dm_value(es, n) is Some ==> dist_at_most(
            g,
            s,
            n,
            dm_value(es, n).unwrap() as nat,
        )
}

/// The counting invariant: finite distances stay below the number of finite
/// entries (hence below the map's size).
pub open spec fn counts_ok(es: DmRep) -> bool {
    forall|t: int|
        0 <= t < es.len() && (#[trigger] es[t]).1 is Some ==> es[t].1.unwrap() < finite_count(es)
}

/// Along any walk from a node at recorded distance 0, relaxation closure
/// bounds the recorded distance of the endpoint by the walk's hop count.
proof fn lemma_closure_bound(g: Map<usize, Seq<usize>>, es: DmRep, p: Seq<usize>)
    requires
        is_path(g, p),
        dm_contains(es, p.first()),
        dm_value(es, p.first()) == Some(0usize),
        forall|n: usize|
            dm_contains(es, n) && #[trigger] dm_value(es, n) is Some ==> dist_relaxed_at(g, es, n),
    ensures
        dm_contains(es, p.last()),
        dm_value(es, p.last()) is Some,
        dm_value(es, p.last()).unwrap() <= p.len() - 1,
    decreases p.len(),
{
    if p.len() > 1 {
        let q = p.drop_last();
        assert(is_path(g, q)) by {
            assert(forall|i: int|
                0 <= i < q.len() - 1 ==> edge_step(g, #[trigger] q[i], q[i + 1])) by {
                assert(forall|i: int|
                    0 <= i < q.len() - 1 ==> #[trigger] q[i] == p[i] && q[i + 1] == p[i + 1]);
            }
        }
        assert(q.first() == p.first());
        lemma_closure_bound(g, es, q);
        let u = p[p.len() - 2];
        let w = p.last();
        assert(q.last() == u);
        assert(edge_step(g, u, w));
        assert(dist_relaxed_at(g, es, u));
        let k = choose|k: int| 0 <= k < g[u].len() && g[u][k] == w;
        assert(dm_contains(es, g[u][k]));
    }
}

/// Unweighted single-source shortest distances from `start_node`.
///
/// When `start_node` is known to the graph, the result maps every known node
/// (keys and listed neighbors alike) to its exact least hop count from
/// `start_node`, or to the unreachable sentinel `None`; when `start_node` is
/// unknown, the result is the empty mapping. Expansion pops the
/// (distance, node)-least frontier entry first and discards stale entries,
/// which for unit weights yields the same distances as plain breadth-first
/// search, but stays correct under a weighted extension.
#[verifier::rlimit(100)]
pub fn single_source_distances(graph: &Graph, start_node: usize) -> (dm: DistanceMap)
    requires
        graph.wf(),
    ensures
        dm.wf(),
        !known_node(graph.rep(), start_node) ==> dm.rep().len() == 0,
        known_node(graph.rep(), start_node) ==> forall|n: usize|
            #[trigger] dm.spec_contains(n) <==> known_node(graph.rep(), n),
        known_node(graph.rep(), start_node) ==> dm.spec_value(start_node) == Some(0usize),
        forall|n: usize|
            #[trigger] dm.spec_contains(n) ==> match dm.spec_value(n) {
                Some(d) => is_shortest_dist(graph.adj(), start_node, n, d as nat),
                None => !reaches(graph.adj(), start_node, n),
            },
{
    if !is_known(graph, start_node) {
        return DistanceMap::new();
    }
    let mut dm = init_known(graph);
    let ghost es0 = dm.rep();
    proof {
        assert(dm_value(es0, start_node) is None) by {
            let i = dm_index(es0, start_node);
        }
    }
    dm.set(start_node, 0);
    let ghost g = graph.adj();
    let cap_len = dm.len();
    let ghost cap = cap_len as int;
    proof {
        let i = dm_index(es0, start_node);
        lemma_dm_index_unique(dm.rep(), start_node, i);
        assert(dm_value(dm.rep(), start_node) == Some(0usize));
        assert forall|n: usize| #[trigger] dm_contains(dm.rep(), n) <==> dm_contains(es0, n) by {
            assert(forall|t: int| 0 <= t < es0.len() ==> (#[trigger] dm.rep()[t]).0 == es0[t].0);
            if dm_contains(es0, n) {
                let t = dm_index(es0, n);
                assert(dm.rep()[t].0 == n);
            }
            if dm_contains(dm.rep(), n) {
                let t = dm_index(dm.rep(), n);
                assert(es0[t].0 == n);
            }
        }
        lemma_fc_all_none(es0);
        lemma_fc_update(es0, i, (start_node, Some(0usize)));
        assert(finite_count(dm.rep()) == 1);
        assert forall|t: int|
            0 <= t < dm.rep().len() && (#[trigger] dm.rep()[t]).1 is Some implies dm.rep()[t].1
            .unwrap() < finite_count(dm.rep()) by {
            if t != i {
                assert(dm.rep()[t] == es0[t]);
            }
        }
        lemma_reaches_self(g, start_node);
        assert(connects(g, seq![start_node], start_node, start_node) && seq![start_node].len() == 0
            + 1);
        assert(dist_at_most(g, start_node, start_node, 0));
        assert forall|n: usize|
            dm_contains(dm.rep(), n) && #[trigger] dm_value(dm.rep(), n) is Some implies dist_at_most(
            g,
            start_node,
            n,
            dm_value(dm.rep(), n).unwrap() as nat,
        ) by {
            let t = dm_index(dm.rep(), n);
            if t != i {
                assert(dm.rep()[t] == es0[t]);
            } else {
                assert(n == start_node);
            }
        }
    }
    let mut frontier: Vec<(usize, usize)> = Vec::new();
    frontier.push((0, start_node));
    proof {
        let ghost i = dm_index(es0, start_node);
        assert(frontier@[0] == (0usize, start_node));
        assert(frontier_sound(frontier@, dm.rep()));
        assert forall|x: usize| #[trigger] covered(g, frontier@, dm.rep(), x) by {
            if dm_contains(dm.rep(), x) && dm_value(dm.rep(), x) is Some {
                if x == start_node {
                    assert(frontier@[0] == (dm_value(dm.rep(), start_node).unwrap(), start_node));
                } else {
                    let t = dm_index(dm.rep(), x);
                    assert(dm.rep()[t].0 == x);
                    assert(t != i);
                    assert(dm.rep()[t] == es0[t]);
                    assert(es0[t].1 is None);
                }
            }
        }
    }
    while frontier.len() > 0
        invariant
            graph.wf(),
            dm.wf(),
            g == graph.adj(),
            cap == dm.rep().len(),
            cap <= usize::MAX,
            dm_contains(dm.rep(), start_node),
            dm_value(dm.rep(), start_node) == Some(0usize),
            forall|n: usize| #[trigger] dm_contains(dm.rep(), n) <==> dm_contains(es0, n),
            forall|n: usize| #[trigger] dm_contains(es0, n) <==> known_node(graph.rep(), n),
            realizable(g, dm.rep(), start_node),
            frontier_sound(frontier@, dm.rep()),
            forall|n: usize| #[trigger] covered(g, frontier@, dm.rep(), n),
            counts_ok(dm.rep()),
        decreases frontier@.len() + 2 * dm_pot(dm.rep(), cap),
    {
        let ghost es_it = dm.rep();
        let ghost front0 = frontier@;
        let flen = frontier.len();
        let mut bi: usize = 0;
        let mut k: usize = 1;
        while k < flen
            invariant
                flen == frontier@.len(),
                1 <= flen,
                bi < flen,
                k <= flen,
            decreases flen - k,
        {
            let cand = frontier[k];
            let best = frontier[bi];
            if cand.0 < best.0 || (cand.0 == best.0 && cand.1 < best.1) {
                bi = k;
            }
            k += 1;
        }
        let (d, n) = frontier.remove(bi);
        proof {
            assert(frontier@.len() == front0.len() - 1);
            assert(front0[bi as int] == (d, n));
            assert(forall|fi: int| 0 <= fi < bi ==> #[trigger] frontier@[fi] == front0[fi]);
            assert(forall|fi: int|
                bi <= fi < frontier@.len() ==> #[trigger] frontier@[fi] == front0[fi + 1]);
            lemma_pot_nonneg(dm.rep(), cap);
        }
        match dm.lookup(n) {
            Some(Some(best)) => {
                if d <= best {
                    proof {
                        assert(d == best);
                    }
                    // process `n`: relax each listed neighbor
                    proof {
                        lemma_cover_survives_removal(g, front0, frontier@, dm.rep(), bi as int, d, n);
                    }
                    match graph.get(n) {
                        Some(nbs) => {
                            let nn = nbs.len();
                            let mut t: usize = 0;
                            proof {
                                assert(g.contains_key(n));
                                assert(g[n] == graph.spec_neighbors(n));
                            }
                            while t < nn
                                invariant
                                    graph.wf(),
                                    dm.wf(),
                                    g == graph.adj(),
                                    cap == dm.rep().len(),
                                    cap <= usize::MAX,
                                    nn == nbs@.len(),
                                    nbs@ == graph.spec_neighbors(n),
                                    g.contains_key(n),
                                    g[n] == nbs@,
                                    t <= nn,
                                    dm_contains(dm.rep(), start_node),
                                    dm_value(dm.rep(), start_node) == Some(0usize),
                                    dm_contains(dm.rep(), n),
                                    dm_value(dm.rep(), n) == Some(d),
                                    forall|x: usize|
                                        #[trigger] dm_contains(dm.rep(), x) <==> dm_contains(
                                            es0,
                                            x,
                                        ),
                                    forall|x: usize|
                                        #[trigger] dm_contains(es0, x) <==> known_node(
                                            graph.rep(),
                                            x,
                                        ),
                                    realizable(g, dm.rep(), start_node),
                                    frontier_sound(frontier@, dm.rep()),
                                    forall|x: usize|
                                        x != n ==> #[trigger] covered(g, frontier@, dm.rep(), x),
                                    dist_relaxed_upto(g, dm.rep(), n, t as int),
                                    counts_ok(dm.rep()),
                                    frontier@.len() + 2 * dm_pot(dm.rep(), cap) <= front0.len() - 1
                                        + 2 * dm_pot(es_it, cap),
                                decreases nn - t,
                            {
                                let w = nbs[t];
                                proof {
                                    assert(edge_step(g, n, w));
                                    assert(known_node(graph.rep(), w)) by {
                                        assert(al_contains(graph.rep(), n));
                                        let i = al_index(graph.rep(), n);
                                        assert(graph.rep()[i].1[t as int] == w);
                                    }
                                    assert(dm_contains(es0, w));
                                    assert(dm_contains(dm.rep(), w));
                                }
                                relax_one(
                                    &mut dm,
                                    &mut frontier,
                                    n,
                                    d,
                                    w,
                                    Ghost(g),
                                    Ghost(start_node),
                                    Ghost(cap),
                                    Ghost(t as int),
                                );
                                t += 1;
                            }
                            proof {
                                assert(dist_relaxed_at(g, dm.rep(), n)) by {
                                    assert(dist_relaxed_upto(g, dm.rep(), n, nn as int));
                                }
                                assert forall|x: usize| #[trigger] covered(g, frontier@, dm.rep(), x) by {
                                    if x != n {
                                        assert(covered(g, frontier@, dm.rep(), x));
                                    }
                                }
                            }
                        },
                        None => {
                            proof {
                                assert(!g.contains_key(n));
                                assert(dist_relaxed_at(g, dm.rep(), n));
                                assert forall|x: usize| #[trigger] covered(g, frontier@, dm.rep(), x) by {
                                    if x != n {
                                        assert(covered(g, frontier@, dm.rep(), x));
                                    }
                                }
                            }
                        },
                    }
                } else {
                    // stale entry: a better distance is already recorded
                    proof {
                        lemma_cover_survives_removal(g, front0, frontier@, dm.rep(), bi as int, d, n);
                        assert forall|x: usize| #[trigger] covered(g, frontier@, dm.rep(), x) by {
                            if x != n {
                                assert(covered(g, frontier@, dm.rep(), x));
                            } else {
                                assert(covered(g, front0, dm.rep(), n));
                                assert(dm_value(dm.rep(), n) == Some(best));
                                if dm_value(dm.rep(), n) is Some && !dist_relaxed_at(
                                    g,
                                    dm.rep(),
                                    n,
                                ) {
                                    let fi = choose|fi: int|
                                        0 <= fi < front0.len() && #[trigger] front0[fi] == (
                                        dm_value(dm.rep(), n).unwrap(),
                                        n,
                                        );
                                    assert(front0[fi] != (d, n));
                                    assert(fi != bi);
                                    if fi < bi {
                                        assert(frontier@[fi] == front0[fi]);
                                    } else {
                                        assert(frontier@[fi - 1] == front0[fi]);
                                    }
                                }
                            }
                        }
                    }
                }
            },
            _ => {
                // cannot happen: queued nodes always carry a finite distance
                proof {
                    assert(dm_contains(es_it, n) && dm_value(es_it, n) is Some) by {
                        assert(front0[bi as int] == (d, n));
                    }
                    assert(false);
                }
            },
        }
        proof {
            lemma_pot_nonneg(dm.rep(), cap);
        }
    }
    proof {
        let es = dm.rep();
        assert forall|n: usize| #[trigger] dm_contains(es, n) implies match dm_value(es, n) {
            Some(dd) => is_shortest_dist(g, start_node, n, dd as nat),
            None => !reaches(g, start_node, n),
        } by {
            assert forall|x: usize|
                dm_contains(es, x) && #[trigger] dm_value(es, x) is Some implies dist_relaxed_at(
                g,
                es,
                x,
            ) by {
                assert(covered(g, frontier@, es, x));
            }
            match dm_value(es, n) {
                Some(dd) => {
                    assert(dist_at_most(g, start_node, n, dd as nat));
                    assert forall|p: Seq<usize>| connects(g, p, start_node, n) implies p.len() >= dd
                        + 1 by {
                        lemma_closure_bound(g, es, p);
                    }
                },
                None => {
                    if reaches(g, start_node, n) {
                        let p = choose|p: Seq<usize>| connects(g, p, start_node, n);
                        lemma_closure_bound(g, es, p);
                    }
                },
            }
        }
    }
    dm
}

/// One relaxation: if reaching `w` through `n` improves on `w`'s recorded
/// distance, record the improvement and queue a fresh frontier entry for `w`.
/// Carries every loop invariant of the expansion across the step.
#[verifier::rlimit(100)]
fn relax_one(
    dm: &mut DistanceMap,
    frontier: &mut Vec<(usize, usize)>,
    n: usize,
    d: usize,
    w: usize,
    Ghost(g): Ghost<Map<usize, Seq<usize>>>,
    Ghost(start_node): Ghost<usize>,
    Ghost(cap): Ghost<int>,
    Ghost(tt): Ghost<int>,
)
    requires
        old(dm).wf(),
        cap == old(dm).rep().len(),
        cap <= usize::MAX,
        g.contains_key(n),
        0 <= tt < g[n].len(),
        g[n][tt] == w,
        edge_step(g, n, w),
        dm_contains(old(dm).rep(), w),
        dm_contains(old(dm).rep(), start_node),
        dm_value(old(dm).rep(), start_node) == Some(0usize),
        dm_contains(old(dm).rep(), n),
        dm_value(old(dm).rep(), n) == Some(d),
        realizable(g, old(dm).rep(), start_node),
        frontier_sound(old(frontier)@, old(dm).rep()),
        forall|x: usize| x != n ==> #[trigger] covered(g, old(frontier)@, old(dm).rep(), x),
        dist_relaxed_upto(g, old(dm).rep(), n, tt),
        counts_ok(old(dm).rep()),
    ensures
        final(dm).wf(),
        cap == final(dm).rep().len(),
        dm_contains(final(dm).rep(), start_node),
        dm_value(final(dm).rep(), start_node) == Some(0usize),
        dm_contains(final(dm).rep(), n),
        dm_value(final(dm).rep(), n) == Some(d),
        forall|x: usize| #[trigger] dm_contains(final(dm).rep(), x) <==> dm_contains(
            old(dm).rep(),
            x,
        ),
        realizable(g, final(dm).rep(), start_node),
        frontier_sound(final(frontier)@, final(dm).rep()),
        forall|x: usize| x != n ==> #[trigger] covered(g, final(frontier)@, final(dm).rep(), x),
        dist_relaxed_upto(g, final(dm).rep(), n, tt + 1),
        counts_ok(final(dm).rep()),
        final(frontier)@.len() + 2 * dm_pot(final(dm).rep(), cap) <= old(frontier)@.len() + 2
            * dm_pot(old(dm).rep(), cap),
{
    let ghost es_in = dm.rep();
    let ghost fr_in = frontier@;
    proof {
        // d + 1 cannot overflow
        let i_n = dm_index(dm.rep(), n);
        assert(dm.rep()[i_n].1 == Some(d));
        lemma_fc_bounds(dm.rep());
        assert(d < cap);
    }
    let cur_w = match dm.lookup(w) {
        Some(c) => c,
        None => None,
    };
    let improves = match cur_w {
        Some(cw) => d + 1 < cw,
        None => true,
    };
    if improves {
        let nd = d + 1;
        let ghost i_w = dm_index(dm.rep(), w);
        dm.set(w, nd);
        proof {
            lemma_relax_step(g, es_in, dm.rep(), i_w, n, w, d, nd, start_node, cap);
        }
        frontier.push((nd, w));
        proof {
            lemma_after_push(g, es_in, dm.rep(), fr_in, frontier@, n, w, nd);
            assert(dist_relaxed_upto(g, dm.rep(), n, tt + 1)) by {
                lemma_relaxed_upto_monotone(g, es_in, dm.rep(), n, tt);
                assert(dm_value(dm.rep(), g[n][tt]) == Some(nd));
            }
        }
    } else {
        proof {
            assert(dist_relaxed_upto(g, dm.rep(), n, tt + 1)) by {
                assert(dm_value(dm.rep(), g[n][tt]) is Some);
            }
        }
    }
}

/// Pushing the fresh frontier entry of a just-relaxed node keeps the frontier
/// sound and every node but the one being processed covered.
proof fn lemma_after_push(
    g: Map<usize, Seq<usize>>,
    es_in: DmRep,
    esn: DmRep,
    fr_in: Seq<(usize, usize)>,
    fr_out: Seq<(usize, usize)>,
    n: usize,
    w: usize,
    nd: usize,
)
    requires
        fr_out == fr_in.push((nd, w)),
        dm_contains(esn, w),
        dm_value(esn, w) == Some(nd),
        forall|y: usize| #[trigger] dm_contains(esn, y) <==> dm_contains(es_in, y),
        forall|y: usize| y != w ==> #[trigger] dm_value(esn, y) == dm_value(es_in, y),
        forall|y: usize|
            dm_contains(es_in, y) && #[trigger] dm_value(es_in, y) is Some ==> dm_value(
                esn,
                y,
            ) is Some && dm_value(esn, y).unwrap() <= dm_value(es_in, y).unwrap(),
        frontier_sound(fr_in, es_in),
        forall|x: usize| x != n ==> #[trigger] covered(g, fr_in, es_in, x),
    ensures
        frontier_sound(fr_out, esn),
        forall|x: usize| x != n ==> #[trigger] covered(g, fr_out, esn, x),
{
    assert(forall|fi: int| 0 <= fi < fr_in.len() ==> #[trigger] fr_out[fi] == fr_in[fi]);
    assert(fr_out[fr_out.len() - 1] == (nd, w));
    assert(frontier_sound(fr_out, esn)) by {
        assert forall|fi: int|
            0 <= fi < fr_out.len() implies dm_contains(esn, (#[trigger] fr_out[fi]).1) && dm_value(
            esn,
            fr_out[fi].1,
        ) is Some && dm_value(esn, fr_out[fi].1).unwrap() <= fr_out[fi].0 by {
            if fi < fr_in.len() {
                assert(dm_contains(es_in, fr_out[fi].1));
                if fr_out[fi].1 != w {
                    assert(dm_value(esn, fr_out[fi].1) == dm_value(es_in, fr_out[fi].1));
                }
            }
        }
    }
    assert forall|x: usize| x != n implies #[trigger] covered(g, fr_out, esn, x) by {
        assert(covered(g, fr_in, es_in, x));
        if dm_contains(esn, x) && dm_value(esn, x) is Some {
            if x == w {
                assert(fr_out[fr_out.len() - 1] == (dm_value(esn, w).unwrap(), w));
            } else {
                assert(dm_value(esn, x) == dm_value(es_in, x));
                if dist_relaxed_at(g, es_in, x) {
                    lemma_relaxed_monotone(g, es_in, esn, x);
                } else {
                    let fi = choose|fi: int|
                        0 <= fi < fr_in.len() && #[trigger] fr_in[fi] == (
                        dm_value(es_in, x).unwrap(),
                        x,
                        );
                    assert(fr_out[fi] == (dm_value(esn, x).unwrap(), x));
                }
            }
        }
    }
}

/// Removing the frontier entry `(d, n)` keeps every other node covered.
proof fn lemma_cover_survives_removal(
    g: Map<usize, Seq<usize>>,
    front0: Seq<(usize, usize)>,
    front1: Seq<(usize, usize)>,
    es: DmRep,
    bi: int,
    d: usize,
    n: usize,
)
    requires
        0 <= bi < front0.len(),
        front0[bi] == (d, n),
        front1.len() == front0.len() - 1,
        forall|fi: int| 0 <= fi < bi ==> #[trigger] front1[fi] == front0[fi],
        forall|fi: int| bi <= fi < front1.len() ==> #[trigger] front1[fi] == front0[fi + 1],
        forall|x: usize| #[trigger] covered(g, front0, es, x),
    ensures
        forall|x: usize| x != n ==> #[trigger] covered(g, front1, es, x),
{
    assert forall|x: usize| x != n implies covered(g, front1, es, x) by {
        assert(covered(g, front0, es, x));
        if dm_contains(es, x) && dm_value(es, x) is Some && !dist_relaxed_at(g, es, x) {
            let fi = choose|fi: int|
                0 <= fi < front0.len() && #[trigger] front0[fi] == (dm_value(es, x).unwrap(), x);
            assert(front0[fi].1 == x);
            assert(fi != bi);
            if fi < bi {
                assert(front1[fi] == front0[fi]);
            } else {
                assert(front1[fi - 1] == front0[fi]);
            }
        }
    }
}

/// All distances in the init map are still the sentinel, so its finite count
/// is zero.
proof fn lemma_fc_all_none(es: DmRep)
    requires
        forall|i: int| 0 <= i < es.len() ==> (#[trigger] es[i]).1 is None,
    ensures
        finite_count(es) == 0,
    decreases es.len(),
{
    if es.len() > 0 {
        assert(forall|i: int| 0 <= i < es.len() - 1 ==> (#[trigger] es.drop_last()[i]) == es[i]);
        lemma_fc_all_none(es.drop_last());
    }
}

/// Relaxation only ever lowers recorded distances, which keeps every already
/// relaxed node relaxed.
proof fn lemma_relaxed_monotone(g: Map<usize, Seq<usize>>, es1: DmRep, es2: DmRep, x: usize)
    requires
        dist_relaxed_at(g, es1, x),
        dm_value(es2, x) == dm_value(es1, x),
        forall|y: usize| #[trigger] dm_contains(es2, y) <==> dm_contains(es1, y),
        forall|y: usize|
            dm_contains(es1, y) && #[trigger] dm_value(es1, y) is Some ==> dm_value(
                es2,
                y,
            ) is Some && dm_value(es2, y).unwrap() <= dm_value(es1, y).unwrap(),
    ensures
        dist_relaxed_at(g, es2, x),
{
    if g.contains_key(x) {
        assert forall|k: int| 0 <= k < g[x].len() implies dm_contains(es2, #[trigger] g[x][k])
            && dm_value(es2, g[x][k]) is Some && dm_value(es2, g[x][k]).unwrap() <= dm_value(
            es2,
            x,
        ).unwrap() + 1 by {
            assert(dm_contains(es1, g[x][k]));
        }
    }
}

/// As `lemma_relaxed_monotone`, for a prefix of the neighbors.
proof fn lemma_relaxed_upto_monotone(
    g: Map<usize, Seq<usize>>,
    es1: DmRep,
    es2: DmRep,
    x: usize,
    t: int,
)
    requires
        dist_relaxed_upto(g, es1, x, t),
        dm_value(es2, x) == dm_value(es1, x),
        forall|y: usize| #[trigger] dm_contains(es2, y) <==> dm_contains(es1, y),
        forall|y: usize|
            dm_contains(es1, y) && #[trigger] dm_value(es1, y) is Some ==> dm_value(
                es2,
                y,
            ) is Some && dm_value(es2, y).unwrap() <= dm_value(es1, y).unwrap(),
    ensures
        dist_relaxed_upto(g, es2, x, t),
{
    if g.contains_key(x) {
        assert forall|k: int| 0 <= k < t && k < g[x].len() implies dm_contains(
            es2,
            #[trigger] g[x][k],
        ) && dm_value(es2, g[x][k]) is Some && dm_value(es2, g[x][k]).unwrap() <= dm_value(
            es2,
            x,
        ).unwrap() + 1 by {
            assert(dm_contains(es1, g[x][k]));
        }
    }
}

/// What one relaxation update preserves and establishes: `w`'s distance drops
/// to `nd == d + 1`, every other value is unchanged, and the realizability
/// and counting invariants carry over while the potential strictly falls.
proof fn lemma_relax_step(
    g: Map<usize, Seq<usize>>,
    es_in: DmRep,
    es_out: DmRep,
    i_w: int,
    n: usize,
    w: usize,
    d: usize,
    nd: usize,
    start_node: usize,
    cap: int,
)
    requires
        dm_wf(es_in),
        dm_wf(es_out),
        dm_contains(es_in, w),
        i_w == dm_index(es_in, w),
        es_out == es_in.update(i_w, (w, Some(nd))),
        nd == d + 1,
        d < cap,
        cap == es_in.len(),
        dm_contains(es_in, n),
        dm_value(es_in, n) == Some(d),
        (match dm_value(es_in, w) {
            Some(cw) => nd < cw,
            None => true,
        }),
        edge_step(g, n, w),
        dm_value(es_in, start_node) == Some(0usize),
        dm_contains(es_in, start_node),
        realizable(g, es_in, start_node),
        counts_ok(es_in),
    ensures
        n != w,
        dm_value(es_out, w) == Some(nd),
        dm_contains(es_out, w),
        dm_value(es_out, n) == Some(d),
        dm_value(es_out, start_node) == Some(0usize),
        dm_contains(es_out, start_node),
        forall|y: usize| #[trigger] dm_contains(es_out, y) <==> dm_contains(es_in, y),
        forall|y: usize| y != w ==> #[trigger] dm_value(es_out, y) == dm_value(es_in, y),
        forall|y: usize|
            dm_contains(es_in, y) && #[trigger] dm_value(es_in, y) is Some ==> dm_value(
                es_out,
                y,
            ) is Some && dm_value(es_out, y).unwrap() <= dm_value(es_in, y).unwrap(),
        realizable(g, es_out, start_node),
        counts_ok(es_out),
        es_out.len() == es_in.len(),
        2 * dm_pot(es_out, cap) <= 2 * dm_pot(es_in, cap) - 2,
{
    assert(0 <= i_w < es_in.len() && es_in[i_w].0 == w);
    lemma_dm_index_unique(es_out, w, i_w);
    assert(dm_value(es_out, w) == Some(nd));
    if n == w {
        assert(dm_value(es_in, w) == Some(d));
        assert(false);
    }
    assert forall|y: usize| #[trigger] dm_contains(es_out, y) <==> dm_contains(es_in, y) by {
        assert(forall|t: int| 0 <= t < es_in.len() ==> (#[trigger] es_out[t]).0 == es_in[t].0);
        if dm_contains(es_in, y) {
            let t = dm_index(es_in, y);
            assert(es_out[t].0 == y);
        }
        if dm_contains(es_out, y) {
            let t = dm_index(es_out, y);
            assert(es_in[t].0 == y);
        }
    }
    assert forall|y: usize| y != w implies #[trigger] dm_value(es_out, y) == dm_value(es_in, y) by {
        if dm_contains(es_in, y) {
            let i_y = dm_index(es_in, y);
            assert(es_in[i_y].0 == y);
            assert(i_y != i_w);
            assert(es_out[i_y] == es_in[i_y]);
            lemma_dm_index_unique(es_out, y, i_y);
        }
    }
    // realizability of the new distance
    assert(dist_at_most(g, start_node, n, d as nat));
    let p = choose|p: Seq<usize>|
        connects(g, p, start_node, n) && p.len() == (d as nat) + 1;
    let q = p.push(w);
    assert(q.last() == w);
    assert(forall|i: int| 0 <= i < p.len() ==> #[trigger] q[i] == p[i]);
    assert(is_path(g, q)) by {
        assert(forall|i: int| 0 <= i < q.len() - 1 ==> edge_step(g, #[trigger] q[i], q[i + 1]))
            by {
            assert(q[p.len() - 1] == n);
        }
    }
    assert(connects(g, q, start_node, w) && q.len() == nd + 1);
    assert(dist_at_most(g, start_node, w, nd as nat));
    assert forall|y: usize|
        dm_contains(es_out, y) && #[trigger] dm_value(es_out, y) is Some implies dist_at_most(
        g,
        start_node,
        y,
        dm_value(es_out, y).unwrap() as nat,
    ) by {
        if y != w {
            assert(dm_value(es_out, y) == dm_value(es_in, y));
        }
    }
    // the counting bound
    lemma_fc_update(es_in, i_w, (w, Some(nd)));
    lemma_fc_bounds(es_in);
    let i_n = dm_index(es_in, n);
    assert(es_in[i_n].1 == Some(d));
    assert(d < finite_count(es_in));
    assert forall|tt: int|
        0 <= tt < es_out.len() && (#[trigger] es_out[tt]).1 is Some implies es_out[tt].1.unwrap()
        < finite_count(es_out) by {
        if tt == i_w {
            if es_in[i_w].1 is Some {
                assert(dm_value(es_in, w) == es_in[i_w].1);
                assert(nd < es_in[i_w].1.unwrap());
                assert(es_in[i_w].1.unwrap() < finite_count(es_in));
                assert(finite_count(es_out) == finite_count(es_in));
            } else {
                assert(finite_count(es_out) == finite_count(es_in) + 1);
            }
        } else {
            assert(es_out[tt] == es_in[tt]);
            if es_in[i_w].1 is Some {
                assert(finite_count(es_out) == finite_count(es_in));
            } else {
                assert(finite_count(es_out) == finite_count(es_in) + 1);
            }
        }
    }
    // the potential strictly decreases
    lemma_pot_update(es_in, i_w, (w, Some(nd)), cap);
    match es_in[i_w].1 {
        Some(cw) => {
            assert(dm_value(es_in, w) == Some(cw));
            assert(nd < cw);
            assert(crate::dist::pot1(es_in[i_w], cap) == cw);
        },
        None => {
            assert(crate::dist::pot1(es_in[i_w], cap) == cap);
            assert(nd < cap) by {
                assert(finite_count(es_out) == finite_count(es_in) + 1);
                lemma_fc_bounds(es_out);
            }
        },
    }
}

/// Whether `n` is known to the graph: a key, or listed as some neighbor.
pub fn is_known(graph: &Graph, n: usize) -> (r: bool)
    ensures
        r == known_node(graph.rep(), n),
{
    if graph.contains(n) {
        return true;
    }
    let len = graph.entries.len();
    for i in 0..len
        invariant
            len == graph.rep().len(),
            forall|a: int, b: int|
                #![trigger graph.rep()[a].1[b]]
                0 <= a < i && 0 <= b < graph.rep()[a].1.len() ==> graph.rep()[a].1[b] != n,
    {
        let nbs = &graph.entries[i].neighbors;
        let m = nbs.len();
        for j in 0..m
            invariant
                len == graph.rep().len(),
                i < len,
                m == nbs@.len(),
                nbs@ == graph.rep()[i as int].1,
                forall|a: int, b: int|
                    #![trigger graph.rep()[a].1[b]]
                    0 <= a < i && 0 <= b < graph.rep()[a].1.len() ==> graph.rep()[a].1[b] != n,
                forall|b: int| 0 <= b < j ==> graph.rep()[i as int].1[b] != n,
        {
            if nbs[j] == n {
                proof {
                    assert(graph.rep()[i as int].1[j as int] == n);
                }
                return true;
            }
        }
    }
    false
}

/// Builds the initial distance map: one sentinel entry per known node, keys
/// in first-appearance order.
fn init_known(graph: &Graph) -> (dm: DistanceMap)
    requires
        graph.wf(),
    ensures
        dm.wf(),
        forall|n: usize| #[trigger] dm_contains(dm.rep(), n) <==> known_node(graph.rep(), n),
        forall|i: int| 0 <= i < dm.rep().len() ==> (#[trigger] dm.rep()[i]).1 is None,
{
    let mut dm = DistanceMap::new();
    let len = graph.entries.len();
    let ghost rep = graph.rep();
    proof {
        assert(rep.take(0) =~= Seq::<(usize, Seq<usize>)>::empty());
    }
    for i in 0..len
        invariant
            graph.wf(),
            rep == graph.rep(),
            len == rep.len(),
            dm.wf(),
            forall|t: int| 0 <= t < dm.rep().len() ==> known_node(rep, (#[trigger] dm.rep()[t]).0),
            forall|n: usize| known_node(rep.take(i as int), n) ==> #[trigger] dm_contains(dm.rep(), n),
            forall|t: int| 0 <= t < dm.rep().len() ==> (#[trigger] dm.rep()[t]).1 is None,
    {
        let node = graph.entries[i].node;
        proof {
            assert(rep[i as int].0 == node);
            assert(al_contains(rep, node));
        }
        add_sentinel(&mut dm, node, Ghost(rep));
        let nbs = &graph.entries[i].neighbors;
        let m = nbs.len();
        for j in 0..m
            invariant
                graph.wf(),
                rep == graph.rep(),
                len == rep.len(),
                i < len,
                m == nbs@.len(),
                nbs@ == rep[i as int].1,
                dm.wf(),
                dm_contains(dm.rep(), rep[i as int].0),
                forall|t: int|
                    0 <= t < dm.rep().len() ==> known_node(rep, (#[trigger] dm.rep()[t]).0),
                forall|n: usize|
                    known_node(rep.take(i as int), n) ==> #[trigger] dm_contains(dm.rep(), n),
                forall|b: int| 0 <= b < j ==> dm_contains(dm.rep(), #[trigger] rep[i as int].1[b]),
                forall|t: int| 0 <= t < dm.rep().len() ==> (#[trigger] dm.rep()[t]).1 is None,
        {
            let w = nbs[j];
            proof {
                assert(rep[i as int].1[j as int] == w);
                assert(known_node(rep, w));
            }
            let ghost dm0 = dm.rep();
            add_sentinel(&mut dm, w, Ghost(rep));
            proof {
                assert forall|b: int|
                    0 <= b < j + 1 implies dm_contains(dm.rep(), #[trigger] rep[i as int].1[b]) by {
                    if b < j {
                        assert(dm_contains(dm0, rep[i as int].1[b]));
                    }
                }
            }
        }
        proof {
            assert forall|n: usize|
                known_node(rep.take(i + 1), n) implies #[trigger] dm_contains(dm.rep(), n) by {
                lemma_known_step(rep, i as int, n);
            }
        }
    }
    proof {
        assert(rep.take(len as int) =~= rep);
        assert forall|n: usize| #[trigger] dm_contains(dm.rep(), n) implies known_node(rep, n) by {
            let t = dm_index(dm.rep(), n);
            assert(known_node(rep, dm.rep()[t].0));
        }
    }
    dm
}

/// Adds a sentinel entry for `n` if it has none; `n` must be known to the
/// graph so that the key invariant is kept.
fn add_sentinel(dm: &mut DistanceMap, n: usize, Ghost(rep): Ghost<Rep>)
    requires
        old(dm).wf(),
        known_node(rep, n),
        forall|t: int|
            0 <= t < old(dm).rep().len() ==> known_node(rep, (#[trigger] old(dm).rep()[t]).0),
        forall|t: int| 0 <= t < old(dm).rep().len() ==> (#[trigger] old(dm).rep()[t]).1 is None,
    ensures
        final(dm).wf(),
        dm_contains(final(dm).rep(), n),
        forall|x: usize|
            dm_contains(old(dm).rep(), x) ==> #[trigger] dm_contains(final(dm).rep(), x),
        forall|t: int|
            0 <= t < final(dm).rep().len() ==> known_node(rep, (#[trigger] final(dm).rep()[t]).0),
        forall|t: int| 0 <= t < final(dm).rep().len() ==> (#[trigger] final(dm).rep()[t]).1 is None,
{
    let ghost dm0 = dm.rep();
    if !dm_has(dm, n) {
        dm.push_entry(n, None);
        proof {
            assert(dm.rep()[dm.rep().len() - 1] == (n, None::<usize>));
            assert(forall|t: int| 0 <= t < dm0.len() ==> (#[trigger] dm.rep()[t]) == dm0[t]);
            assert forall|x: usize|
                dm_contains(dm0, x) implies #[trigger] dm_contains(dm.rep(), x) by {
                lemma_contains_monotone(dm0, dm.rep(), x);
            }
        }
    }
}

/// Membership survives appending entries.
proof fn lemma_contains_monotone(es0: DmRep, es1: DmRep, n: usize)
    requires
        es0.len() <= es1.len(),
        forall|t: int| 0 <= t < es0.len() ==> (#[trigger] es1[t]) == es0[t],
        dm_contains(es0, n),
    ensures
        dm_contains(es1, n),
{
    let t = dm_index(es0, n);
    assert(es1[t].0 == n);
}

/// Membership in a distance map, by linear scan.
fn dm_has(dm: &DistanceMap, n: usize) -> (r: bool)
    ensures
        r == dm_contains(dm.rep(), n),
{
    let len = dm.entries.len();
    for i in 0..len
        invariant
            len == dm.rep().len(),
            forall|j: int| 0 <= j < i ==> (#[trigger] dm.rep()[j]).0 != n,
    {
        if dm.entries[i].node == n {
            proof {
                assert(dm.rep()[i as int].0 == n);
            }
            return true;
        }
    }
    false
}

/// Unrolling `known_node` over one more entry.
proof fn lemma_known_step(rep: Rep, i: int, n: usize)
    requires
        0 <= i < rep.len(),
    ensures
        known_node(rep.take(i + 1), n) <==> (known_node(rep.take(i), n) || n == rep[i].0 || exists|
            b: int,
        |
            0 <= b < rep[i].1.len() && rep[i].1[b] == n),
{
    let p0 = rep.take(i);
    let p1 = rep.take(i + 1);
    assert(forall|t: int| 0 <= t < i ==> #[trigger] p1[t] == rep[t] && p0[t] == rep[t]);
    assert(p1[i] == rep[i]);
    if known_node(p1, n) {
        if al_contains(p1, n) {
            let t = al_index(p1, n);
            if t < i {
                assert(p0[t].0 == n);
                assert(al_contains(p0, n));
            } else {
                assert(n == rep[i].0);
            }
        } else {
            let (a, b): (int, int) = choose|a: int, b: int|
                #![trigger p1[a].1[b]]
                0 <= a < p1.len() && 0 <= b < p1[a].1.len() && p1[a].1[b] == n;
            if a < i {
                assert(p0[a].1[b] == n);
                assert(known_node(p0, n));
            } else {
                assert(rep[i].1[b] == n);
            }
        }
    }
    if known_node(p0, n) {
        if al_contains(p0, n) {
            let t = al_index(p0, n);
            assert(p1[t].0 == n);
            assert(al_contains(p1, n));
        } else {
            let (a, b): (int, int) = choose|a: int, b: int|
                #![trigger p0[a].1[b]]
                0 <= a < p0.len() && 0 <= b < p0[a].1.len() && p0[a].1[b] == n;
            assert(p1[a].1[b] == n);
            assert(known_node(p1, n));
        }
    }
    if n == rep[i].0 {
        assert(p1[i].0 == n);
        assert(al_contains(p1, n));
    }
    if exists|b: int| 0 <= b < rep[i].1.len() && rep[i].1[b] == n {
        let b = choose|b: int| 0 <= b < rep[i].1.len() && rep[i].1[b] == n;
        assert(p1[i].1[b] == n);
        assert(known_node(p1, n));
    }
}

} // verus!
