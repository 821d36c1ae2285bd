//! Random sampling: drawing a bounded set of distinct nodes uniformly from a
//! graph or edge list, without regard to connectivity, and keeping only the
//! edges inside the draw. The draw itself comes from an outside generator;
//! everything that consumes it is verified for every possible draw.

use vstd::prelude::*;
use vstd::math::min;
use crate::graph::{Graph, GraphEntry, Rep, contains_id, rep_of};
use rand::seq::IteratorRandom;

verus! {

/// All edge endpoints in storage order: both ends of each edge in turn.
pub open spec fn endpoints_of(edges: Seq<(usize, usize)>) -> Seq<usize>
    decreases edges.len(),
{
    if edges.len() == 0 {
        Seq::empty()
    } else {
        endpoints_of(edges.drop_last()) + seq![edges.last().0, edges.last().1]
    }
}

/// First-appearance deduplication of a sequence of node ids.
pub open spec fn dedup_of(s: Seq<usize>) -> Seq<usize>
    decreases s.len(),
{
    if s.len() == 0 {
        Seq::empty()
    } else {
        let p = dedup_of(s.drop_last());
        if p.contains(s.last()) {
            p
        } else {
            p.push(s.last())
        }
    }
}

/// The stored edges whose both endpoints lie in `sset`, in storage order.
pub open spec fn edges_within(edges: Seq<(usize, usize)>, sset: Set<usize>) -> Seq<(usize, usize)>
    decreases edges.len(),
{
    if edges.len() == 0 {
        Seq::empty()
    } else {
        edges_within(edges.drop_last(), sset) + if sset.contains(edges.last().0) && sset.contains(
            edges.last().1,
        ) {
            seq![edges.last()]
        } else {
            Seq::empty()
        }
    }
}

/// The entries of `es` at the positions in `idxs`, in that order.
pub open spec fn select_rep(es: Rep, idxs: Seq<usize>) -> Rep {
    Seq::new(idxs.len(), |j: int| es[idxs[j] as int])
}

/// Deduplication neither invents nor loses ids, and leaves no duplicates.
pub proof fn lemma_dedup_of(s: Seq<usize>)
    ensures
        dedup_of(s).no_duplicates(),
        dedup_of(s).to_set() == s.to_set(),
    decreases s.len(),
{
    if s.len() == 0 {
        assert(dedup_of(s).to_set() =~= s.to_set());
    } else {
        lemma_dedup_of(s.drop_last());
        let p = dedup_of(s.drop_last());
        let out = dedup_of(s);
        assert(s.drop_last().to_set().insert(s.last()) =~= s.to_set()) by {
            assert forall|x: usize| s.to_set().contains(x) implies s.drop_last().to_set().insert(
                s.last(),
            ).contains(x) by {
                let i = choose|i: int| 0 <= i < s.len() && s[i] == x;
                if i < s.len() - 1 {
                    assert(s.drop_last()[i] == x);
                }
            }
            assert forall|x: usize|
                s.drop_last().to_set().insert(s.last()).contains(x) implies s.to_set().contains(
                x,
            ) by {
                if s.drop_last().to_set().contains(x) {
                    let i = choose|i: int| 0 <= i < s.len() - 1 && s.drop_last()[i] == x;
                    assert(s[i] == x);
                } else {
                    assert(s[s.len() - 1] == x);
                }
            }
        }
        if p.contains(s.last()) {
            assert(out.to_set() =~= s.to_set()) by {
                assert(p.to_set().contains(s.last()));
            }
        } else {
            assert(out.to_set() =~= p.to_set().insert(s.last())) by {
                assert forall|x: usize| out.to_set().contains(x) implies p.to_set().insert(
                    s.last(),
                ).contains(x) by {
                    let i = choose|i: int| 0 <= i < out.len() && out[i] == x;
                    if i < out.len() - 1 {
                        assert(p[i] == x);
                    }
                }
                assert forall|x: usize| p.to_set().insert(s.last()).contains(x) implies out.to_set()
                    .contains(x) by {
                    if p.to_set().contains(x) {
                        let i = choose|i: int| 0 <= i < p.len() && p[i] == x;
                        assert(out[i] == x);
                    } else {
                        assert(out[out.len() - 1] == x);
                    }
                }
            }
            assert(out.no_duplicates()) by {
                assert forall|i: int, j: int| 0 <= i < j < out.len() implies out[i] != out[j] by {
                    if j == out.len() - 1 {
                        assert(out[i] == p[i]);
                        assert(p.to_set().contains(p[i]));
                    }
                }
            }
        }
    }
}

/// Relies on rand's `IteratorRandom::choose_multiple` (with `thread_rng`):
/// the result collects `min(k, v.len())` elements drawn from distinct
/// positions of `v`, in an unspecified order.
#[verifier::external_body]
fn random_distinct_picks(v: &Vec<usize>, k: usize) -> (r: Vec<usize>)
    ensures
        r@.len() == min(k as int, v@.len() as int),
        r@.to_multiset().subset_of(v@.to_multiset()),
{
    v.iter().cloned().choose_multiple(&mut rand::thread_rng(), k)
}

/// A draw from a duplicate-free pool is itself duplicate-free and stays
/// inside the pool.
proof fn lemma_draw_from_pool(pool: Seq<usize>, draw: Seq<usize>)
    requires
        pool.no_duplicates(),
        draw.to_multiset().subset_of(pool.to_multiset()),
    ensures
        draw.no_duplicates(),
        draw.to_set().subset_of(pool.to_set()),
{
    pool.to_multiset_ensures();
    draw.to_multiset_ensures();
    pool.lemma_multiset_has_no_duplicates();
    assert forall|x: usize| draw.to_multiset().contains(x) implies draw.to_multiset().count(x)
        == 1 by {
        assert(draw.to_multiset().count(x) <= pool.to_multiset().count(x));
        assert(pool.to_multiset().contains(x));
    }
    draw.lemma_multiset_has_no_duplicates_conv();
    assert forall|x: usize| draw.to_set().contains(x) implies pool.to_set().contains(x) by {
        assert(draw.contains(x));
        assert(draw.to_multiset().count(x) > 0);
        assert(pool.to_multiset().count(x) > 0);
        assert(pool.contains(x));
    }
}

/// The distinct endpoints of an edge list, in first-appearance order.
pub fn unique_nodes_of(edges: &Vec<(usize, usize)>) -> (r: Vec<usize>)
    ensures
        r@ == dedup_of(endpoints_of(edges@)),
{
    let mut r: Vec<usize> = Vec::new();
    let len = edges.len();
    proof {
        assert(edges@.take(0) =~= Seq::<(usize, usize)>::empty());
    }
    for i in 0..len
        invariant
            len == edges@.len(),
            r@ == dedup_of(endpoints_of(edges@.take(i as int))),
    {
        let (u, v) = edges[i];
        proof {
            let pre = edges@.take(i as int);
            let mid = endpoints_of(pre).push(u);
            assert(edges@.take(i + 1).drop_last() =~= pre);
            assert(edges@.take(i + 1).last() == (u, v));
            assert(endpoints_of(edges@.take(i + 1)) == endpoints_of(pre) + seq![u, v]);
            assert(endpoints_of(pre) + seq![u, v] =~= mid.push(v));
            assert(mid.push(v).drop_last() =~= mid);
            assert(mid.drop_last() =~= endpoints_of(pre));
            assert(dedup_of(mid.push(v)) == (if dedup_of(mid).contains(v) {
                dedup_of(mid)
            } else {
                dedup_of(mid).push(v)
            }));
        }
        if !contains_id(&r, u) {
            r.push(u);
        }
        proof {
            let pre = edges@.take(i as int);
            let mid = endpoints_of(pre).push(u);
            assert(r@ == dedup_of(mid));
        }
        if !contains_id(&r, v) {
            r.push(v);
        }
        proof {
            assert(r@ == dedup_of(endpoints_of(edges@.take(i + 1))));
        }
    }
    proof {
        assert(edges@.take(len as int) =~= edges@);
    }
    r
}

/// Keeps the stored edges whose both endpoints are in `nodes`, in storage
/// order.
pub fn filter_edges_by_nodes(edges: &Vec<(usize, usize)>, nodes: &Vec<usize>) -> (r: Vec<
    (usize, usize),
>)
    ensures
        r@ == edges_within(edges@, nodes@.to_set()),
{
    let ghost sset = nodes@.to_set();
    let mut r: Vec<(usize, usize)> = Vec::new();
    let len = edges.len();
    proof {
        assert(edges@.take(0) =~= Seq::<(usize, usize)>::empty());
    }
    for i in 0..len
        invariant
            len == edges@.len(),
            sset == nodes@.to_set(),
            r@ == edges_within(edges@.take(i as int), sset),
    {
        let (u, v) = edges[i];
        proof {
            assert(edges@.take(i + 1).drop_last() =~= edges@.take(i as int));
            assert(edges@.take(i + 1).last() == (u, v));
        }
        if contains_id(nodes, u) && contains_id(nodes, v) {
            r.push((u, v));
        }
        proof {
            assert(r@ =~= edges_within(edges@.take(i + 1), sset));
        }
    }
    proof {
        assert(edges@.take(len as int) =~= edges@);
    }
    r
}

/// Samples up to `num_nodes` distinct nodes uniformly from the edge list's
/// endpoints and keeps the edges with both ends in the sample.
///
/// Which nodes are drawn depends on the process-wide random source; whatever
/// the draw, the result is exactly the stored edges within some
/// duplicate-free sample of `min(num_nodes, #distinct endpoints)` endpoints.
pub fn sample_graph(edges: &Vec<(usize, usize)>, num_nodes: usize) -> (r: Vec<(usize, usize)>)
    ensures
        exists|sample: Seq<usize>|
            #![trigger edges_within(edges@, sample.to_set())]
            sample.no_duplicates() && sample.to_set().subset_of(endpoints_of(edges@).to_set())
                && sample.len() == min(
                num_nodes as int,
                dedup_of(endpoints_of(edges@)).len() as int,
            ) && r@ == edges_within(edges@, sample.to_set()),
{
    let pool = unique_nodes_of(edges);
    let picks = random_distinct_picks(&pool, num_nodes);
    proof {
        lemma_dedup_of(endpoints_of(edges@));
        lemma_draw_from_pool(pool@, picks@);
    }
    let r = filter_edges_by_nodes(edges, &picks);
    proof {
        assert(picks@.to_set().subset_of(endpoints_of(edges@).to_set()));
    }
    r
}

/// The node-induced subgraph on the entries at `idxs`: each kept entry's
/// neighbor list is copied verbatim.
fn select_entries(graph: &Graph, idxs: &Vec<usize>) -> (sub: Graph)
    requires
        graph.wf(),
        forall|j: int| 0 <= j < idxs@.len() ==> (#[trigger] idxs@[j]) < graph.rep().len(),
        idxs@.no_duplicates(),
    ensures
        sub.wf(),
        sub.rep() == select_rep(graph.rep(), idxs@),
{
    let mut entries: Vec<GraphEntry> = Vec::new();
    let len = idxs.len();
    proof {
        assert(rep_of(entries@) =~= select_rep(graph.rep(), idxs@.take(0)));
    }
    for t in 0..len
        invariant
            graph.wf(),
            len == idxs@.len(),
            forall|j: int| 0 <= j < idxs@.len() ==> (#[trigger] idxs@[j]) < graph.rep().len(),
            idxs@.no_duplicates(),
            entries@.len() == t,
            rep_of(entries@) == select_rep(graph.rep(), idxs@.take(t as int)),
    {
        let ghost eold = entries@;
        let i = idxs[t];
        let node = graph.entries[i].node;
        let neighbors = crate::sample::copy_ids(&graph.entries[i].neighbors);
        entries.push(GraphEntry { node, neighbors });
        proof {
            let cur = rep_of(entries@);
            let next = select_rep(graph.rep(), idxs@.take(t + 1));
            assert(cur.len() == t + 1 && next.len() == t + 1);
            assert forall|j: int| 0 <= j < t + 1 implies cur[j] == next[j] by {
                assert(idxs@.take(t + 1)[j] == idxs@[j]);
                if j < t {
                    assert(entries@[j] == eold[j]);
                    assert(cur[j] == rep_of(eold)[j]);
                    assert(rep_of(eold)[j] == select_rep(graph.rep(), idxs@.take(t as int))[j]);
                    assert(select_rep(graph.rep(), idxs@.take(t as int))[j] == graph.rep()[idxs@[j] as int]);
                } else {
                    assert(entries@[j].node == graph.entries@[i as int].node);
                    assert(entries@[j].neighbors@ == graph.entries@[i as int].neighbors@);
                }
            }
            assert(cur =~= next);
        }
    }
    proof {
        assert(idxs@.take(len as int) =~= idxs@);
    }
    let sub = Graph { entries };
    proof {
        let es = sub.rep();
        assert forall|a: int, b: int| 0 <= a < b < es.len() implies es[a].0 != es[b].0 by {
            assert(es[a] == graph.rep()[idxs@[a] as int]);
            assert(es[b] == graph.rep()[idxs@[b] as int]);
            assert(idxs@[a] != idxs@[b]);
        }
    }
    sub
}

/// Builds the directed graph from the input lines (skipping leading comment
/// lines and unparsable lines) and keeps up to `sample_size` of its entries,
/// chosen uniformly at random.
///
/// Whatever the draw, the result consists of whole entries of the loaded
/// graph at `min(sample_size, #nodes)` distinct positions, neighbor lists
/// copied verbatim.
pub fn preprocess_with_sampling(lines: &Vec<Vec<u8>>, sample_size: usize) -> (sub: Graph)
    ensures
        sub.wf(),
        exists|idxs: Seq<usize>|
            #![trigger select_rep(crate::loader::dir_graph_of(crate::loader::lines_view(lines@)), idxs)]
            idxs.no_duplicates() && (forall|j: int|
                0 <= j < idxs.len() ==> (#[trigger] idxs[j]) < crate::loader::dir_graph_of(
                    crate::loader::lines_view(lines@),
                ).len()) && idxs.len() == min(
                sample_size as int,
                crate::loader::dir_graph_of(crate::loader::lines_view(lines@)).len() as int,
            ) && sub.rep() == select_rep(
                crate::loader::dir_graph_of(crate::loader::lines_view(lines@)),
                idxs,
            ),
{
    let g = crate::loader::load_directed_tolerant(lines);
    let n = g.len();
    let mut indices: Vec<usize> = Vec::new();
    for i in 0..n
        invariant
            indices@.len() == i,
            forall|j: int| 0 <= j < i ==> (#[trigger] indices@[j]) == j,
    {
        indices.push(i);
    }
    proof {
        assert(indices@.no_duplicates());
    }
    let picks = random_distinct_picks(&indices, sample_size);
    proof {
        lemma_draw_from_pool(indices@, picks@);
        assert forall|j: int| 0 <= j < picks@.len() implies (#[trigger] picks@[j]) < g.rep().len()
            by {
            assert(picks@.to_set().contains(picks@[j]));
            assert(indices@.to_set().contains(picks@[j]));
            let t = choose|t: int| 0 <= t < indices@.len() && indices@[t] == picks@[j];
        }
    }
    let sub = select_entries(&g, &picks);
    sub
}

} // verus!
