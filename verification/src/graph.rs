//! Model of the host audio server's connection graph.
//!
//! Ports are identified by small integers (the surrounding program keeps
//! the mapping from the host's `client:port` names to these identifiers).
//! The graph is the set of directed edges from a source output port to a
//! destination input port; fan-out and fan-in are arbitrary. Connect and
//! disconnect requests are advisory, as on the host: asking for a state
//! the graph is already in is a no-op.

use vstd::prelude::*;

verus! {

/// One directed connection from a source output port to a destination
/// input port.
#[derive(Clone, Copy, PartialEq, Eq, Structural, Debug)]
pub struct Edge {
    pub src: u64,
    pub dst: u64,
}

/// The set of source ports currently feeding destination `d` in `g`.
pub open spec fn srcs_of(g: Set<(int, int)>, d: int) -> Set<int> {
    Set::new(|s: int| g.contains((s, d)))
}

/// The edge set that routes every port of `ss` into destination `d`.
pub open spec fn retarget(ss: Set<int>, d: int) -> Set<(int, int)> {
    Set::new(|p: (int, int)| ss.contains(p.0) && p.1 == d)
}

/// The set of port identifiers held in a vector.
pub open spec fn ids_set(s: Seq<u64>) -> Set<int> {
    Set::new(|x: int| exists|i: int| 0 <= i < s.len() && s[i] as int == x)
}

/// The connection graph, as the host exposes it: a duplicate-free list of
/// edges, viewed as a set of `(source, destination)` pairs.
pub struct PortGraph {
    pub edges: Vec<Edge>,
}

impl PortGraph {
    /// The mathematical value of the graph: its set of edges.
    pub open spec fn view_set(self) -> Set<(int, int)> {
        Set::new(
            |p: (int, int)|
                exists|i: int|
                    0 <= i < self.edges@.len() && (#[trigger] self.edges@[i]).src as int == p.0
                        && self.edges@[i].dst as int == p.1,
        )
    }

    /// Well-formedness: no edge is listed twice.
    pub open spec fn wf(self) -> bool {
        forall|i: int, j: int|
            0 <= i < j < self.edges@.len() ==> !((#[trigger] self.edges@[i]).src
                == (#[trigger] self.edges@[j]).src && self.edges@[i].dst == self.edges@[j].dst)
    }

    /// An empty graph.
    pub fn new() -> (g: Self)
        ensures
            g.wf(),
            g.view_set() == Set::<(int, int)>::empty(),
            g.edges@.len() == 0,
    {
        let g = PortGraph { edges: Vec::new() };
        proof {
            assert(g.view_set() =~= Set::<(int, int)>::empty());
        }
        g
    }

    /// The number of edges in the graph.
    pub fn edge_count(&self) -> (n: usize)
        ensures
            n == self.edges@.len(),
    {
        self.edges.len()
    }

    /// Whether the edge from `src` to `dst` is present.
    pub fn contains_edge(&self, src: u64, dst: u64) -> (r: bool)
        ensures
            r == self.view_set().contains((src as int, dst as int)),
    {
        let mut i: usize = 0;
        while i < self.edges.len()
            invariant
                i <= self.edges@.len(),
                forall|j: int|
                    0 <= j < i ==> !((#[trigger] self.edges@[j]).src == src && self.edges@[j].dst
                        == dst),
            decreases self.edges@.len() - i,
        {
            if self.edges[i].src == src && self.edges[i].dst == dst {
                return true;
            }
            i += 1;
        }
        false
    }

    /// Requests the connection `src -> dst`: adds the edge, or leaves the
    /// graph unchanged if the edge is already present.
    pub fn connect(&mut self, src: u64, dst: u64)
        requires
            old(self).wf(),
        ensures
            final(self).wf(),
            final(self).view_set() == old(self).view_set().insert((src as int, dst as int)),
    {
        if !self.contains_edge(src, dst) {
            self.edges.push(Edge { src, dst });
            proof {
                let oe = old(self).edges@;
                let ge = self.edges@;
                assert(ge[ge.len() - 1] == (Edge { src, dst }));
                assert forall|i: int, j: int| 0 <= i < j < ge.len() implies !((
                #[trigger] ge[i]).src == (#[trigger] ge[j]).src && ge[i].dst == ge[j].dst) by {
                    if j == ge.len() - 1 {
                        if ge[i].src == src && ge[i].dst == dst {
                            assert(old(self).view_set().contains((src as int, dst as int)));
                        }
                    } else {
                        assert(ge[i] == oe[i] && ge[j] == oe[j]);
                    }
                }
                assert forall|p: (int, int)| self.view_set().contains(p) implies old(
                    self,
                ).view_set().insert((src as int, dst as int)).contains(p) by {
                    let k = choose|k: int|
                        0 <= k < ge.len() && (#[trigger] ge[k]).src as int == p.0
                            && ge[k].dst as int == p.1;
                    if k < ge.len() - 1 {
                        assert(oe[k] == ge[k]);
                        assert(old(self).view_set().contains(p));
                    }
                }
                assert forall|p: (int, int)|
                    old(self).view_set().insert((src as int, dst as int)).contains(
                        p,
                    ) implies self.view_set().contains(p) by {
                    if p == (src as int, dst as int) {
                        assert((#[trigger] ge[ge.len() - 1]).src as int == p.0
                            && ge[ge.len() - 1].dst as int == p.1);
                    } else {
                        let k = choose|k: int|
                            0 <= k < oe.len() && (#[trigger] oe[k]).src as int == p.0
                                && oe[k].dst as int == p.1;
                        assert((#[trigger] ge[k]).src as int == p.0 && ge[k].dst as int == p.1);
                    }
                }
                assert(self.view_set() =~= old(self).view_set().insert((src as int, dst as int)));
            }
        } else {
            proof {
                assert(self.view_set() =~= old(self).view_set().insert((src as int, dst as int)));
            }
        }
    }

    /// Requests the removal of the connection `src -> dst`: removes the
    /// edge, or leaves the graph unchanged if the edge is absent.
    pub fn disconnect(&mut self, src: u64, dst: u64)
        requires
            old(self).wf(),
        ensures
            final(self).wf(),
            final(self).view_set() == old(self).view_set().remove((src as int, dst as int)),
    {
        let mut i: usize = 0;
        while i < self.edges.len()
            invariant
                i <= self.edges@.len(),
                *self == *old(self),
                self.wf(),
                forall|j: int|
                    0 <= j < i ==> !((#[trigger] self.edges@[j]).src == src && self.edges@[j].dst
                        == dst),
            decreases self.edges@.len() - i,
        {
            if self.edges[i].src == src && self.edges[i].dst == dst {
                self.edges.remove(i);
                proof {
                    lemma_removed_view(*old(self), *self, i as int, src as int, dst as int);
                }
                return;
            }
            i += 1;
        }
        proof {
            assert(self.view_set() =~= old(self).view_set().remove((src as int, dst as int)));
        }
    }

    /// All source ports currently connected into destination `dst`,
    /// without duplicates.
    pub fn sources_of(&self, dst: u64) -> (r: Vec<u64>)
        requires
            self.wf(),
        ensures
            ids_set(r@) == srcs_of(self.view_set(), dst as int),
            forall|i: int, j: int| 0 <= i < j < r@.len() ==> r@[i] != r@[j],
            forall|i: int|
                0 <= i < r@.len() ==> self.view_set().contains(
                    ((#[trigger] r@[i]) as int, dst as int),
                ),
    {
        let mut r: Vec<u64> = Vec::new();
        let mut i: usize = 0;
        while i < self.edges.len()
            invariant
                i <= self.edges@.len(),
                self.wf(),
                forall|k: int| #![trigger r@[k]]
                    0 <= k < r@.len() ==> found_in_prefix(self.edges@, i as int, r@[k], dst),
                forall|j: int|
                    0 <= j < i && (#[trigger] self.edges@[j]).dst == dst ==> r@.contains(
                        self.edges@[j].src,
                    ),
                forall|k1: int, k2: int| 0 <= k1 < k2 < r@.len() ==> r@[k1] != r@[k2],
            decreases self.edges@.len() - i,
        {
            let ghost r_old = r@;
            if self.edges[i].dst == dst {
                r.push(self.edges[i].src);
                proof {
                    assert(r@ == r_old.push(self.edges@[i as int].src));
                    assert forall|x: u64| r_old.contains(x) implies r@.contains(x) by {
                        let k = choose|k: int| 0 <= k < r_old.len() && r_old[k] == x;
                        assert(r@[k] == x);
                    }
                    assert(r@[r@.len() - 1] == self.edges@[i as int].src);
                    assert(r@.contains(self.edges@[i as int].src));
                    assert forall|k: int| #![trigger r@[k]] 0 <= k < r@.len() implies
                        found_in_prefix(self.edges@, i + 1, r@[k], dst) by {
                        if k < r@.len() - 1 {
                            assert(r@[k] == r_old[k]);
                            assert(found_in_prefix(self.edges@, i as int, r_old[k], dst));
                            lemma_found_in_wider_prefix(self.edges@, i as int, i + 1, r@[k], dst);
                        } else {
                            assert(0 <= i < i + 1 && (self.edges@[i as int]).src == r@[k]
                                && self.edges@[i as int].dst == dst);
                        }
                    }
                    assert forall|k1: int, k2: int| 0 <= k1 < k2 < r@.len() implies r@[k1]
                        != r@[k2] by {
                        if k2 == r@.len() - 1 {
                            if r@[k1] == r@[k2] {
                                assert(r@[k1] == r_old[k1]);
                                assert(found_in_prefix(self.edges@, i as int, r_old[k1], dst));
                                let j = choose|j: int|
                                    0 <= j < i && (#[trigger] self.edges@[j]).src == r_old[k1]
                                        && self.edges@[j].dst == dst;
                                assert(self.edges@[j].src == self.edges@[i as int].src
                                    && self.edges@[j].dst == self.edges@[i as int].dst);
                            }
                        } else {
                            assert(r@[k1] == r_old[k1] && r@[k2] == r_old[k2]);
                        }
                    }
                }
            } else {
                proof {
                    assert forall|k: int| #![trigger r@[k]] 0 <= k < r@.len() implies
                        found_in_prefix(self.edges@, i + 1, r@[k], dst) by {
                        lemma_found_in_wider_prefix(self.edges@, i as int, i + 1, r@[k], dst);
                    }
                }
            }
            i += 1;
        }
        proof {
            assert forall|x: int| ids_set(r@).contains(x) implies srcs_of(
                self.view_set(),
                dst as int,
            ).contains(x) by {
                let k = choose|k: int| 0 <= k < r@.len() && r@[k] as int == x;
                assert(found_in_prefix(self.edges@, self.edges@.len() as int, r@[k], dst));
                let j = choose|j: int|
                    0 <= j < self.edges@.len() && (#[trigger] self.edges@[j]).src == r@[k]
                        && self.edges@[j].dst == dst;
                assert(self.view_set().contains((x, dst as int)));
            }
            assert forall|x: int| srcs_of(self.view_set(), dst as int).contains(x) implies ids_set(
                r@,
            ).contains(x) by {
                let j = choose|j: int|
                    0 <= j < self.edges@.len() && (#[trigger] self.edges@[j]).src as int == x
                        && self.edges@[j].dst as int == dst as int;
                assert(r@.contains(self.edges@[j].src));
                let k = choose|k: int| 0 <= k < r@.len() && r@[k] == self.edges@[j].src;
                assert(r@[k] as int == x);
            }
            assert(ids_set(r@) =~= srcs_of(self.view_set(), dst as int));
            assert forall|i2: int| 0 <= i2 < r@.len() implies self.view_set().contains(
                ((#[trigger] r@[i2]) as int, dst as int),
            ) by {
                assert(ids_set(r@).contains(r@[i2] as int));
            }
        }
        r
    }
}

/// Whether some edge among the first `n` listed routes source `x` into
/// destination `dst`.
pub open spec fn found_in_prefix(edges: Seq<Edge>, n: int, x: u64, dst: u64) -> bool {
    exists|j: int| 0 <= j < n && (#[trigger] edges[j]).src == x && edges[j].dst == dst
}

/// A source found among the first `n1` edges is found among the first
/// `n2 >= n1` as well.
proof fn lemma_found_in_wider_prefix(edges: Seq<Edge>, n1: int, n2: int, x: u64, dst: u64)
    requires
        n1 <= n2,
        found_in_prefix(edges, n1, x, dst),
    ensures
        found_in_prefix(edges, n2, x, dst),
{
    let j = choose|j: int| 0 <= j < n1 && (#[trigger] edges[j]).src == x && edges[j].dst == dst;
    assert(0 <= j < n2 && edges[j].src == x && edges[j].dst == dst);
}

/// Removing the one listed occurrence of an edge removes exactly that pair
/// from the graph's edge set and keeps the list duplicate-free.
proof fn lemma_removed_view(g0: PortGraph, g1: PortGraph, i: int, src: int, dst: int)
    requires
        g0.wf(),
        0 <= i < g0.edges@.len(),
        g0.edges@[i].src as int == src,
        g0.edges@[i].dst as int == dst,
        g1.edges@ == g0.edges@.remove(i),
    ensures
        g1.wf(),
        g1.view_set() == g0.view_set().remove((src, dst)),
{
    assert forall|p: (int, int)| g1.view_set().contains(p) implies g0.view_set().remove(
        (src, dst),
    ).contains(p) by {
        let k = choose|k: int|
            0 <= k < g1.edges@.len() && (#[trigger] g1.edges@[k]).src as int == p.0
                && g1.edges@[k].dst as int == p.1;
        let k0 = if k < i {
            k
        } else {
            k + 1
        };
        assert(g1.edges@[k] == g0.edges@[k0]);
        assert(g0.view_set().contains(p));
        assert(p != (src, dst));
    }
    assert forall|p: (int, int)| g0.view_set().remove((src, dst)).contains(p) implies g1.view_set()
        .contains(p) by {
        let k0 = choose|k0: int|
            0 <= k0 < g0.edges@.len() && (#[trigger] g0.edges@[k0]).src as int == p.0
                && g0.edges@[k0].dst as int == p.1;
        if k0 < i {
            assert(g1.edges@[k0] == g0.edges@[k0]);
        } else {
            assert(k0 != i);
            assert(g1.edges@[k0 - 1] == g0.edges@[k0]);
        }
    }
    assert(g1.view_set() =~= g0.view_set().remove((src, dst)));
    assert forall|a: int, b: int| 0 <= a < b < g1.edges@.len() implies !((
    #[trigger] g1.edges@[a]).src == (#[trigger] g1.edges@[b]).src && g1.edges@[a].dst
        == g1.edges@[b].dst) by {
        let a0 = if a < i {
            a
        } else {
            a + 1
        };
        let b0 = if b < i {
            b
        } else {
            b + 1
        };
        assert(g1.edges@[a] == g0.edges@[a0]);
        assert(g1.edges@[b] == g0.edges@[b0]);
    }
}

} // verus!
