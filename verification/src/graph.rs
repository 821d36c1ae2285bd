//! The adjacency representation: a mapping from node id to an ordered list of
//! neighbor ids, stored as an association list so that both the set of keys
//! and the order in which they were inserted are kept.

use vstd::prelude::*;

verus! {

/// One adjacency entry: a node and its neighbor list in edge-arrival order.
pub struct GraphEntry {
    pub node: usize,
    pub neighbors: Vec<usize>,
}

/// A graph as a mapping from node id to an ordered neighbor list.
///
/// Keys are unique (`wf`) and keep their insertion order; neighbor lists keep
/// edge-arrival order and are not deduplicated, so parallel edges and
/// self-loops are preserved verbatim.
pub struct Graph {
    pub entries: Vec<GraphEntry>,
}

/// The mathematical model of a graph: its entries as a sequence of
/// (node, neighbor list) pairs.
pub type Rep = Seq<(usize, Seq<usize>)>;

/// Whether the association list has an entry for node `n`.
pub open spec fn al_contains(es: Rep, n: usize) -> bool {
    exists|i: int| 0 <= i < es.len() && (#[trigger] es[i]).0 == n
}

/// The index of node `n`'s entry (meaningful only when `al_contains` holds
/// and keys are unique).
pub open spec fn al_index(es: Rep, n: usize) -> int {
    choose|i: int| 0 <= i < es.len() && (#[trigger] es[i]).0 == n
}

/// The neighbor list recorded for `n`, or the empty sequence if `n` has no entry.
pub open spec fn al_neighbors(es: Rep, n: usize) -> Seq<usize> {
    if al_contains(es, n) {
        es[al_index(es, n)].1
    } else {
        Seq::empty()
    }
}

/// Appending `v` to `u`'s neighbor list, creating `u`'s entry at the end if absent.
pub open spec fn al_add(es: Rep, u: usize, v: usize) -> Rep {
    if al_contains(es, u) {
        es.update(al_index(es, u), (u, es[al_index(es, u)].1.push(v)))
    } else {
        es.push((u, seq![v]))
    }
}

/// Appending an empty entry for `u` if it has none.
pub open spec fn al_ensure(es: Rep, u: usize) -> Rep {
    if al_contains(es, u) {
        es
    } else {
        es.push((u, Seq::empty()))
    }
}

/// Unique keys: at most one entry per node id.
pub open spec fn al_wf(es: Rep) -> bool {
    forall|i: int, j: int|
        0 <= i < j < es.len() ==> (#[trigger] es[i]).0 != (#[trigger] es[j]).0
}

/// The model of a sequence of entries: each as a (node, neighbor list) pair.
pub open spec fn rep_of(entries: Seq<GraphEntry>) -> Rep {
    entries.map_values(|e: GraphEntry| (e.node, e.neighbors@))
}

impl Graph {
    /// The model of this graph.
    pub open spec fn rep(self) -> Rep {
        rep_of(self.entries@)
    }

    /// Well-formedness: keys are unique.
    pub open spec fn wf(self) -> bool {
        al_wf(self.rep())
    }

    /// The graph as a map from node id to neighbor list.
    pub open spec fn adj(self) -> Map<usize, Seq<usize>> {
        adj_of(self.rep())
    }

    pub open spec fn spec_contains(self, n: usize) -> bool {
        al_contains(self.rep(), n)
    }

    pub open spec fn spec_neighbors(self, n: usize) -> Seq<usize> {
        al_neighbors(self.rep(), n)
    }

    /// An empty graph.
    pub fn new() -> (g: Graph)
        ensures
            g.rep() == Seq::<(usize, Seq<usize>)>::empty(),
            g.wf(),
    {
        let g = Graph { entries: Vec::new() };
        proof {
            assert(g.rep() =~= Seq::<(usize, Seq<usize>)>::empty());
        }
        g
    }

    /// The number of entries (distinct nodes, given `wf`).
    pub fn len(&self) -> (n: usize)
        ensures
            n == self.rep().len(),
    {
        self.entries.len()
    }

    /// The index of `n`'s entry, scanning in insertion order.
    pub(crate) fn find_index(&self, n: usize) -> (r: Option<usize>)
        ensures
            match r {
                Some(i) => i < self.rep().len() && self.rep()[i as int].0 == n,
                None => !al_contains(self.rep(), n),
            },
    {
        let len = self.entries.len();
        for i in 0..len
            invariant
                len == self.rep().len(),
                forall|j: int| 0 <= j < i ==> (#[trigger] self.rep()[j]).0 != n,
        {
            if self.entries[i].node == n {
                return Some(i);
            }
        }
        None
    }

    /// Whether the graph has an entry for `n`.
    pub fn contains(&self, n: usize) -> (r: bool)
        ensures
            r == self.spec_contains(n),
    {
        self.find_index(n).is_some()
    }

    /// The neighbor list of `n`, or `None` if `n` has no entry.
    pub fn get(&self, n: usize) -> (r: Option<&Vec<usize>>)
        requires
            self.wf(),
        ensures
            match r {
                Some(v) => self.spec_contains(n) && v@ == self.spec_neighbors(n),
                None => !self.spec_contains(n),
            },
    {
        match self.find_index(n) {
            Some(i) => {
                proof {
                    assert(al_index(self.rep(), n) == i) by {
                        let k = al_index(self.rep(), n);
                        assert(0 <= k < self.rep().len() && self.rep()[k].0 == n);
                    }
                }
                Some(&self.entries[i].neighbors)
            },
            None => None,
        }
    }

    /// Appends `v` to `u`'s neighbor list, creating the entry if absent.
    pub fn add_neighbor(&mut self, u: usize, v: usize)
        requires
            old(self).wf(),
        ensures
            final(self).rep() == al_add(old(self).rep(), u, v),
            final(self).wf(),
    {
        let ghost es = self.rep();
        match self.find_index(u) {
            Some(i) => {
                proof {
                    assert(al_index(es, u) == i) by {
                        let k = al_index(es, u);
                        assert(0 <= k < es.len() && es[k].0 == u);
                    }
                }
                self.entries[i].neighbors.push(v);
                proof {
                    assert(self.rep() =~~= al_add(es, u, v));
                }
            },
            None => {
                let mut nbs: Vec<usize> = Vec::new();
                nbs.push(v);
                self.entries.push(GraphEntry { node: u, neighbors: nbs });
                proof {
                    assert(self.rep() =~~= al_add(es, u, v));
                }
            },
        }
    }

    /// Creates an empty entry for `u` if it has none.
    pub fn ensure_node(&mut self, u: usize)
        requires
            old(self).wf(),
        ensures
            final(self).rep() == al_ensure(old(self).rep(), u),
            final(self).wf(),
    {
        let ghost es = self.rep();
        match self.find_index(u) {
            Some(_) => {
                proof {
                    assert(self.rep() =~~= al_ensure(es, u));
                }
            },
            None => {
                self.entries.push(GraphEntry { node: u, neighbors: Vec::new() });
                proof {
                    assert(self.rep() =~~= al_ensure(es, u));
                }
            },
        }
    }
}

/// A node known to the representation: a key, or listed as anyone's neighbor.
pub open spec fn known_node(es: Rep, n: usize) -> bool {
    al_contains(es, n) || exists|i: int, j: int|
        #![trigger es[i].1[j]]
        0 <= i < es.len() && 0 <= j < es[i].1.len() && es[i].1[j] == n
}

/// Under unique keys, the chosen index of a present key is the only one.
pub proof fn lemma_al_index_unique(es: Rep, n: usize, i: int)
    requires
        al_wf(es),
        0 <= i < es.len(),
        es[i].0 == n,
    ensures
        al_contains(es, n),
        al_index(es, n) == i,
{
    assert(al_contains(es, n));
    let k = al_index(es, n);
    assert(0 <= k < es.len() && es[k].0 == n);
}

/// `al_add` keeps keys unique.
pub proof fn lemma_al_add_wf(es: Rep, u: usize, v: usize)
    requires
        al_wf(es),
    ensures
        al_wf(al_add(es, u, v)),
{
    let out = al_add(es, u, v);
    if al_contains(es, u) {
        let k = al_index(es, u);
        assert(forall|i: int| 0 <= i < es.len() && i != k ==> (#[trigger] out[i]) == es[i]);
        assert(out[k].0 == es[k].0);
    } else {
        assert(forall|i: int| 0 <= i < es.len() ==> (#[trigger] out[i]) == es[i]);
        assert(forall|i: int| 0 <= i < es.len() ==> (#[trigger] es[i]).0 != u);
        assert(out[es.len() as int].0 == u);
    }
}

/// `al_ensure` keeps keys unique.
pub proof fn lemma_al_ensure_wf(es: Rep, u: usize)
    requires
        al_wf(es),
    ensures
        al_wf(al_ensure(es, u)),
{
    if !al_contains(es, u) {
        let out = al_ensure(es, u);
        assert(forall|i: int| 0 <= i < es.len() ==> (#[trigger] out[i]) == es[i]);
        assert(forall|i: int| 0 <= i < es.len() ==> (#[trigger] es[i]).0 != u);
        assert(out[es.len() as int].0 == u);
    }
}

/// After `al_add(es, u, v)`, node `u` lists `v`.
pub proof fn lemma_al_add_gives(es: Rep, u: usize, v: usize)
    requires
        al_wf(es),
    ensures
        al_contains(al_add(es, u, v), u),
        al_neighbors(al_add(es, u, v), u).contains(v),
{
    let out = al_add(es, u, v);
    lemma_al_add_wf(es, u, v);
    if al_contains(es, u) {
        let k = al_index(es, u);
        assert(out[k].0 == u);
        lemma_al_index_unique(out, u, k);
        let nbs = out[k].1;
        assert(nbs == es[k].1.push(v));
        assert(nbs.last() == v);
        assert(nbs.contains(v));
    } else {
        let k = es.len() as int;
        assert(out[k].0 == u);
        lemma_al_index_unique(out, u, k);
        assert(out[k].1 == seq![v]);
        assert(out[k].1[0] == v);
        assert(out[k].1.contains(v));
    }
}

/// `al_add` never removes a recorded neighbor.
pub proof fn lemma_al_add_preserves(es: Rep, u: usize, v: usize, x: usize, y: usize)
    requires
        al_wf(es),
        al_neighbors(es, x).contains(y),
    ensures
        al_neighbors(al_add(es, u, v), x).contains(y),
{
    let out = al_add(es, u, v);
    lemma_al_add_wf(es, u, v);
    assert(al_contains(es, x));
    let i = al_index(es, x);
    if al_contains(es, u) {
        let k = al_index(es, u);
        if x == u {
            assert(i == k);
            assert(out[k].0 == u);
            lemma_al_index_unique(out, x, k);
            let j = choose|j: int| 0 <= j < es[k].1.len() && es[k].1[j] == y;
            assert(out[k].1[j] == y);
            assert(out[k].1.contains(y));
        } else {
            assert(i != k);
            assert(out[i] == es[i]);
            lemma_al_index_unique(out, x, i);
        }
    } else {
        assert(out[i] == es[i]);
        lemma_al_index_unique(out, x, i);
    }
}

/// `al_ensure` never removes a recorded neighbor.
pub proof fn lemma_al_ensure_preserves(es: Rep, u: usize, x: usize, y: usize)
    requires
        al_wf(es),
        al_neighbors(es, x).contains(y),
    ensures
        al_neighbors(al_ensure(es, u), x).contains(y),
{
    let out = al_ensure(es, u);
    lemma_al_ensure_wf(es, u);
    assert(al_contains(es, x));
    let i = al_index(es, x);
    if !al_contains(es, u) {
        assert(out[i] == es[i]);
        lemma_al_index_unique(out, x, i);
    }
}

/// Whether `x` occurs in a list of node ids, by linear scan.
pub fn contains_id(v: &Vec<usize>, x: usize) -> (r: bool)
    ensures
        r == v@.contains(x),
{
    let len = v.len();
    for i in 0..len
        invariant
            len == v@.len(),
            forall|j: int| 0 <= j < i ==> v@[j] != x,
    {
        if v[i] == x {
            return true;
        }
    }
    false
}

/// The map view of an association list.
pub open spec fn adj_of(es: Rep) -> Map<usize, Seq<usize>> {
    Map::new(|n: usize| al_contains(es, n), |n: usize| al_neighbors(es, n))
}

} // verus!
