//! The distance map: each node known to a graph, mapped to its hop count from
//! a start node, or to the "unreachable" sentinel (`None`).

use vstd::prelude::*;
use vstd::pervasive::VecAdditionalExecFns;

verus! {

/// One distance entry: a node and its recorded distance (`None` while the
/// node looks unreachable).
pub struct DistEntry {
    pub node: usize,
    pub dist: Option<usize>,
}

/// A mapping from node id to shortest-path distance or the unreachable
/// sentinel, with unique keys.
pub struct DistanceMap {
    pub entries: Vec<DistEntry>,
}

/// The model of a distance map: (node, distance) pairs.
pub type DmRep = Seq<(usize, Option<usize>)>;

/// The model of a sequence of distance entries.
pub open spec fn dm_rep_of(entries: Seq<DistEntry>) -> DmRep {
    entries.map_values(|e: DistEntry| (e.node, e.dist))
}

/// Whether the map has an entry for `n`.
pub open spec fn dm_contains(es: DmRep, n: usize) -> bool {
    exists|i: int| 0 <= i < es.len() && (#[trigger] es[i]).0 == n
}

/// The index of `n`'s entry (meaningful under unique keys).
pub open spec fn dm_index(es: DmRep, n: usize) -> int {
    choose|i: int| 0 <= i < es.len() && (#[trigger] es[i]).0 == n
}

/// The recorded distance of `n`; `None` both for absent nodes and for the
/// unreachable sentinel.
pub open spec fn dm_value(es: DmRep, n: usize) -> Option<usize> {
    if dm_contains(es, n) {
        es[dm_index(es, n)].1
    } else {
        None
    }
}

/// Unique keys.
pub open spec fn dm_wf(es: DmRep) -> bool {
    forall|i: int, j: int|
        0 <= i < j < es.len() ==> (#[trigger] es[i]).0 != (#[trigger] es[j]).0
}

/// Under unique keys, the chosen index of a present key is the only one.
pub proof fn lemma_dm_index_unique(es: DmRep, n: usize, i: int)
    requires
        dm_wf(es),
        0 <= i < es.len(),
        es[i].0 == n,
    ensures
        dm_contains(es, n),
        dm_index(es, n) == i,
{
    assert(dm_contains(es, n));
    let k = dm_index(es, n);
    assert(0 <= k < es.len() && es[k].0 == n);
}

/// The number of entries holding a finite distance.
pub open spec fn finite_count(es: DmRep) -> int
    decreases es.len(),
{
    if es.len() == 0 {
        0
    } else {
        finite_count(es.drop_last()) + if es.last().1 is Some {
            1int
        } else {
            0int
        }
    }
}

/// One entry's contribution to the termination potential: its distance, with
/// the sentinel counting as `cap`.
pub open spec fn pot1(e: (usize, Option<usize>), cap: int) -> int {
    match e.1 {
        Some(d) => d as int,
        None => cap,
    }
}

/// The termination potential of the whole map.
pub open spec fn dm_pot(es: DmRep, cap: int) -> int
    decreases es.len(),
{
    if es.len() == 0 {
        0
    } else {
        dm_pot(es.drop_last(), cap) + pot1(es.last(), cap)
    }
}

/// The finite count lies between 0 and the number of entries.
pub proof fn lemma_fc_bounds(es: DmRep)
    ensures
        0 <= finite_count(es) <= es.len(),
    decreases es.len(),
{
    if es.len() > 0 {
        lemma_fc_bounds(es.drop_last());
    }
}

/// How one updated entry changes the finite count.
pub proof fn lemma_fc_update(es: DmRep, i: int, e: (usize, Option<usize>))
    requires
        0 <= i < es.len(),
    ensures
        finite_count(es.update(i, e)) == finite_count(es) - (if es[i].1 is Some {
            1int
        } else {
            0int
        }) + (if e.1 is Some {
            1int
        } else {
            0int
        }),
    decreases es.len(),
{
    let out = es.update(i, e);
    if i == es.len() - 1 {
        assert(out.drop_last() =~= es.drop_last());
        assert(out.last() == e);
    } else {
        assert(out.drop_last() =~= es.drop_last().update(i, e));
        assert(out.last() == es.last());
        lemma_fc_update(es.drop_last(), i, e);
    }
}

/// How one updated entry changes the potential.
pub proof fn lemma_pot_update(es: DmRep, i: int, e: (usize, Option<usize>), cap: int)
    requires
        0 <= i < es.len(),
    ensures
        dm_pot(es.update(i, e), cap) == dm_pot(es, cap) - pot1(es[i], cap) + pot1(e, cap),
    decreases es.len(),
{
    let out = es.update(i, e);
    if i == es.len() - 1 {
        assert(out.drop_last() =~= es.drop_last());
        assert(out.last() == e);
    } else {
        assert(out.drop_last() =~= es.drop_last().update(i, e));
        assert(out.last() == es.last());
        lemma_pot_update(es.drop_last(), i, e, cap);
    }
}

/// The potential is non-negative when the cap is.
pub proof fn lemma_pot_nonneg(es: DmRep, cap: int)
    requires
        cap >= 0,
    ensures
        dm_pot(es, cap) >= 0,
    decreases es.len(),
{
    if es.len() > 0 {
        lemma_pot_nonneg(es.drop_last(), cap);
    }
}

impl DistanceMap {
    /// The model of this map.
    pub open spec fn rep(self) -> DmRep {
        dm_rep_of(self.entries@)
    }

    /// Well-formedness: unique keys.
    pub open spec fn wf(self) -> bool {
        dm_wf(self.rep())
    }

    pub open spec fn spec_contains(self, n: usize) -> bool {
        dm_contains(self.rep(), n)
    }

    pub open spec fn spec_value(self, n: usize) -> Option<usize> {
        dm_value(self.rep(), n)
    }

    /// An empty map.
    pub fn new() -> (dm: DistanceMap)
        ensures
            dm.rep() == Seq::<(usize, Option<usize>)>::empty(),
            dm.wf(),
    {
        let dm = DistanceMap { entries: Vec::new() };
        proof {
            assert(dm.rep() =~= Seq::<(usize, Option<usize>)>::empty());
        }
        dm
    }

    /// The number of entries (distinct nodes, given `wf`).
    pub fn len(&self) -> (n: usize)
        ensures
            n == self.rep().len(),
    {
        self.entries.len()
    }

    /// The index of `n`'s entry.
    fn find(&self, n: usize) -> (r: Option<usize>)
        ensures
            match r {
                Some(i) => i < self.rep().len() && self.rep()[i as int].0 == n,
                None => !dm_contains(self.rep(), n),
            },
    {
        let len = self.entries.len();
        for i in 0..len
            invariant
                len == self.rep().len(),
                forall|j: int| 0 <= j < i ==> (#[trigger] self.rep()[j]).0 != n,
        {
            if self.entries[i].node == n {
                return Some(i);
            }
        }
        None
    }

    /// The recorded distance of `n`: `None` if `n` has no entry, otherwise its
    /// distance or the unreachable sentinel.
    pub fn lookup(&self, n: usize) -> (r: Option<Option<usize>>)
        requires
            self.wf(),
        ensures
            match r {
                Some(d) => self.spec_contains(n) && d == self.spec_value(n),
                None => !self.spec_contains(n),
            },
    {
        match self.find(n) {
            Some(i) => {
                proof {
                    lemma_dm_index_unique(self.rep(), n, i as int);
                }
                Some(self.entries[i].dist)
            },
            None => None,
        }
    }

    /// The entry at position `i`, in insertion order.
    pub fn entry_at(&self, i: usize) -> (r: (usize, Option<usize>))
        requires
            i < self.rep().len(),
        ensures
            r == self.rep()[i as int],
    {
        (self.entries[i].node, self.entries[i].dist)
    }

    /// Appends an entry for a node not yet present.
    pub(crate) fn push_entry(&mut self, n: usize, d: Option<usize>)
        requires
            old(self).wf(),
            !dm_contains(old(self).rep(), n),
        ensures
            final(self).rep() == old(self).rep().push((n, d)),
            final(self).wf(),
    {
        self.entries.push(DistEntry { node: n, dist: d });
        proof {
            let es = self.rep();
            assert(es =~= old(self).rep().push((n, d)));
            assert forall|i: int, j: int| 0 <= i < j < es.len() implies es[i].0 != es[j].0 by {
                if j == es.len() - 1 {
                    assert(es[i] == old(self).rep()[i]);
                    assert(forall|t: int|
                        0 <= t < old(self).rep().len() ==> (#[trigger] old(self).rep()[t]).0 != n);
                } else {
                    assert(es[i] == old(self).rep()[i]);
                    assert(es[j] == old(self).rep()[j]);
                }
            }
        }
    }

    /// Records a finite distance for a present node.
    pub(crate) fn set(&mut self, n: usize, d: usize)
        requires
            old(self).wf(),
            dm_contains(old(self).rep(), n),
        ensures
            final(self).rep() == old(self).rep().update(
                dm_index(old(self).rep(), n),
                (n, Some(d)),
            ),
            final(self).wf(),
    {
        let ghost es = old(self).rep();
        match self.find(n) {
            Some(i) => {
                proof {
                    lemma_dm_index_unique(es, n, i as int);
                }
                let e = DistEntry { node: n, dist: Some(d) };
                self.entries.set(i, e);
                proof {
                    assert(self.rep() =~= es.update(i as int, (n, Some(d))));
                    let out = self.rep();
                    assert forall|a: int, b: int|
                        0 <= a < b < out.len() implies out[a].0 != out[b].0 by {
                        assert(out[a].0 == es[a].0);
                        assert(out[b].0 == es[b].0);
                    }
                }
            },
            None => {
                proof {
                    assert(false);
                }
            },
        }
    }
}

} // verus!
