//! The wiring of a graph: which nodes its edges connect, and the ways along
//! them.

use crate::digraph::{
    add_edge, add_node, edge_total, edges_entering, edges_leaving, entering, leaving, new_graph,
    NumberedGraph, GRAPH_LIMIT,
};
use vstd::prelude::*;

verus! {

/// The edges that leave node `n`, the latest first: the number of each, and the
/// node it leads to.
pub open spec fn outs(ends: Seq<(usize, usize)>, n: int) -> Seq<(usize, usize)>
    decreases ends.len(),
{
    if ends.len() == 0 {
        Seq::empty()
    } else if ends.last().0 == n {
        seq![((ends.len() - 1) as usize, ends.last().1)] + outs(ends.drop_last(), n)
    } else {
        outs(ends.drop_last(), n)
    }
}

/// The edges that enter node `n`, the latest first: the number of each, and the
/// node it comes from.
pub open spec fn ins(ends: Seq<(usize, usize)>, n: int) -> Seq<(usize, usize)>
    decreases ends.len(),
{
    if ends.len() == 0 {
        Seq::empty()
    } else if ends.last().1 == n {
        seq![((ends.len() - 1) as usize, ends.last().0)] + ins(ends.drop_last(), n)
    } else {
        ins(ends.drop_last(), n)
    }
}

/// Nodes, and edges in the order in which they were added.
pub struct WiringModel {
    pub nodes: nat,
    pub ends: Seq<(usize, usize)>,
}

impl WiringModel {
    /// Every edge connects two of the nodes, and the numbers fit.
    pub open spec fn wf(self) -> bool {
        &&& self.nodes <= GRAPH_LIMIT
        &&& self.ends.len() <= GRAPH_LIMIT
        &&& forall|e: int|
            0 <= e < self.ends.len() ==> (#[trigger] self.ends[e]).0 < self.nodes && self.ends[e].1
                < self.nodes
    }

    /// Whether an edge leads from `u` to `v`.
    pub open spec fn has_edge(self, u: int, v: int) -> bool {
        exists|e: int|
            0 <= e < self.ends.len() && (#[trigger] self.ends[e]).0 == u && self.ends[e].1 == v
    }

    /// Whether an edge leads from `u` to `v`, or from `v` to `u` if the edges are
    /// taken backward.
    pub open spec fn steps(self, back: bool, u: int, v: int) -> bool {
        if back {
            self.has_edge(v, u)
        } else {
            self.has_edge(u, v)
        }
    }

    /// Whether `p` is a way along edges, all taken forward or all backward.
    pub open spec fn is_way(self, back: bool, p: Seq<int>) -> bool {
        &&& p.len() > 0
        &&& forall|i: int| 0 <= i < p.len() ==> 0 <= #[trigger] p[i] < self.nodes
        &&& forall|i: int| 0 <= i < p.len() - 1 ==> self.steps(back, #[trigger] p[i], p[i + 1])
    }

    /// Whether `p` is a way from `a` to `b`.
    pub open spec fn leads(self, back: bool, p: Seq<int>, a: int, b: int) -> bool {
        self.is_way(back, p) && p[0] == a && p.last() == b
    }

    /// Whether `p` is a way from `a` to `b` along edges, and none has fewer.
    pub open spec fn is_shortest(self, p: Seq<int>, a: int, b: int) -> bool {
        self.leads(false, p, a, b) && forall|q: Seq<int>| #[trigger]
            self.leads(false, q, a, b) ==> p.len() <= q.len()
    }

    /// Whether `v` can be reached from `root` over `k` edges.
    pub open spec fn reaches(self, back: bool, root: int, v: int, k: int) -> bool {
        exists|p: Seq<int>| #[trigger] self.leads(back, p, root, v) && p.len() == k + 1
    }
}

/// The edges of a graph, kept in a `petgraph` graph and as a list.
pub struct Wiring {
    graph: NumberedGraph,
    ends: Vec<(usize, usize)>,
}

impl View for Wiring {
    type V = WiringModel;

    closed spec fn view(&self) -> WiringModel {
        WiringModel { nodes: leaving(self.graph).len(), ends: self.ends@ }
    }
}

impl Wiring {
    /// The graph holds the edges of the list, and every edge connects two of the
    /// nodes.
    pub closed spec fn wf(&self) -> bool {
        &&& self@.wf()
        &&& entering(self.graph).len() == leaving(self.graph).len()
        &&& edge_total(self.graph) == self.ends@.len()
        &&& forall|n: int|
            0 <= n < leaving(self.graph).len() ==> #[trigger] leaving(self.graph)[n] == outs(
                self.ends@,
                n,
            )
        &&& forall|n: int|
            0 <= n < leaving(self.graph).len() ==> #[trigger] entering(self.graph)[n] == ins(
                self.ends@,
                n,
            )
    }

    /// A graph without nodes.
    pub fn new() -> (r: Self)
        ensures
            r.wf(),
            r@ == (WiringModel { nodes: 0, ends: Seq::empty() }),
    {
        let graph = new_graph();
        let ends: Vec<(usize, usize)> = Vec::new();
        Wiring { graph, ends }
    }

    /// What well-formedness says of the model.
    pub proof fn lemma_wf(&self)
        requires
            self.wf(),
        ensures
            self@.wf(),
    {
    }

    /// The two ends of an edge.
    pub fn ends_of(&self, e: usize) -> (r: (usize, usize))
        requires
            e < self@.ends.len(),
        ensures
            r == self@.ends[e as int],
    {
        self.ends[e]
    }

    /// Adds a node behind the others.
    pub fn push_node(&mut self)
        requires
            old(self).wf(),
            old(self)@.nodes < GRAPH_LIMIT,
        ensures
            final(self).wf(),
            final(self)@ == (WiringModel {
                nodes: old(self)@.nodes + 1,
                ends: old(self)@.ends,
            }),
    {
        let ghost n0 = leaving(self.graph).len() as int;
        let n: usize = add_node(&mut self.graph, 0);
        proof {
            lemma_no_edges_at(self.ends@, n0);
            assert(outs(self.ends@, n0) =~= Seq::<(usize, usize)>::empty());
        }
    }

    /// Adds an edge behind the others.
    pub fn push_edge(&mut self, a: usize, b: usize)
        requires
            old(self).wf(),
            old(self)@.ends.len() < GRAPH_LIMIT,
            a < old(self)@.nodes,
            b < old(self)@.nodes,
        ensures
            final(self).wf(),
            final(self)@ == (WiringModel {
                nodes: old(self)@.nodes,
                ends: old(self)@.ends.push((a, b)),
            }),
    {
        let number: usize = self.ends.len();
        add_edge(&mut self.graph, a, b, number);
        let ghost before = self.ends@;
        self.ends.push((a, b));
        proof {
            assert(self.ends@.drop_last() =~= before);
            assert forall|n: int| 0 <= n < leaving(self.graph).len() implies #[trigger] leaving(
                self.graph,
            )[n] == outs(self.ends@, n) by {
                assert(leaving(old(self).graph)[n] == outs(before, n));
            }
            assert forall|n: int| 0 <= n < leaving(self.graph).len() implies #[trigger] entering(
                self.graph,
            )[n] == ins(self.ends@, n) by {
                assert(entering(old(self).graph)[n] == ins(before, n));
            }
        }
    }

    /// The edges that leave a node, the latest first.
    pub fn edges_out(&self, n: usize) -> (r: Vec<(usize, usize)>)
        requires
            self.wf(),
            n < self@.nodes,
        ensures
            r@ == outs(self@.ends, n as int),
    {
        edges_leaving(&self.graph, n)
    }

    /// The edges that enter a node, the latest first.
    pub fn edges_in(&self, n: usize) -> (r: Vec<(usize, usize)>)
        requires
            self.wf(),
            n < self@.nodes,
        ensures
            r@ == ins(self@.ends, n as int),
    {
        edges_entering(&self.graph, n)
    }

    /// The nodes from which the edges into a node come, the latest first.
    pub fn sources_of(&self, n: usize) -> (r: Vec<usize>)
        requires
            self.wf(),
            n < self@.nodes,
        ensures
            r@ == ins(self@.ends, n as int).map_values(|e: (usize, usize)| e.1),
    {
        let edges = self.edges_in(n);
        let ghost wanted = edges@.map_values(|e: (usize, usize)| e.1);
        let mut out: Vec<usize> = Vec::new();
        let mut i: usize = 0;
        while i < edges.len()
            invariant
                i <= edges@.len(),
                wanted == edges@.map_values(|e: (usize, usize)| e.1),
                out@ == wanted.take(i as int),
            decreases edges.len() - i,
        {
            out.push(edges[i].1);
            i += 1;
            assert(out@ =~= wanted.take(i as int));
        }
        assert(wanted.take(i as int) =~= wanted);
        out
    }
}

proof fn lemma_no_edges_at(ends: Seq<(usize, usize)>, n: int)
    requires
        forall|e: int|
            0 <= e < ends.len() ==> (#[trigger] ends[e]).0 != n && ends[e].1 != n,
    ensures
        outs(ends, n) == Seq::<(usize, usize)>::empty(),
        ins(ends, n) == Seq::<(usize, usize)>::empty(),
    decreases ends.len(),
{
    if ends.len() > 0 {
        let e = ends.len() - 1;
        assert(ends[e] == ends.last());
        assert forall|e: int| 0 <= e < ends.drop_last().len() implies (
        #[trigger] ends.drop_last()[e]).0 != n && ends.drop_last()[e].1 != n by {
            assert(ends[e] == ends.drop_last()[e]);
        }
        lemma_no_edges_at(ends.drop_last(), n);
    }
}

/// The edges that leave a node are those whose first end it is.
pub proof fn lemma_outs(ends: Seq<(usize, usize)>, n: int)
    requires
        ends.len() <= usize::MAX,
    ensures
        forall|k: int|
            0 <= k < outs(ends, n).len() ==> {
                let o = #[trigger] outs(ends, n)[k];
                o.0 < ends.len() && ends[o.0 as int].0 == n && ends[o.0 as int].1 == o.1
            },
        forall|e: int|
            0 <= e < ends.len() && (#[trigger] ends[e]).0 == n ==> outs(ends, n).contains(
                (e as usize, ends[e].1),
            ),
    decreases ends.len(),
{
    if ends.len() > 0 {
        let rest = ends.drop_last();
        lemma_outs(rest, n);
        let all = outs(ends, n);
        let old = outs(rest, n);
        assert forall|k: int| 0 <= k < all.len() implies {
            let o = #[trigger] all[k];
            o.0 < ends.len() && ends[o.0 as int].0 == n && ends[o.0 as int].1 == o.1
        } by {
            if ends.last().0 == n {
                if k > 0 {
                    assert(all[k] == old[k - 1]);
                }
            } else {
                assert(all[k] == old[k]);
            }
        }
        assert forall|e: int| 0 <= e < ends.len() && (#[trigger] ends[e]).0 == n implies all.contains(
            (e as usize, ends[e].1),
        ) by {
            if e == ends.len() - 1 {
                assert(all[0] == (e as usize, ends[e].1));
            } else {
                assert(rest[e] == ends[e]);
                let x = (e as usize, ends[e].1);
                let k = choose|k: int| 0 <= k < old.len() && old[k] == x;
                if ends.last().0 == n {
                    assert(all[k + 1] == x);
                } else {
                    assert(all[k] == x);
                }
            }
        }
    }
}

/// The edges that enter a node are those whose second end it is.
pub proof fn lemma_ins(ends: Seq<(usize, usize)>, n: int)
    requires
        ends.len() <= usize::MAX,
    ensures
        forall|k: int|
            0 <= k < ins(ends, n).len() ==> {
                let o = #[trigger] ins(ends, n)[k];
                o.0 < ends.len() && ends[o.0 as int].1 == n && ends[o.0 as int].0 == o.1
            },
        forall|e: int|
            0 <= e < ends.len() && (#[trigger] ends[e]).1 == n ==> ins(ends, n).contains(
                (e as usize, ends[e].0),
            ),
    decreases ends.len(),
{
    if ends.len() > 0 {
        let rest = ends.drop_last();
        lemma_ins(rest, n);
        let all = ins(ends, n);
        let old = ins(rest, n);
        assert forall|k: int| 0 <= k < all.len() implies {
            let o = #[trigger] all[k];
            o.0 < ends.len() && ends[o.0 as int].1 == n && ends[o.0 as int].0 == o.1
        } by {
            if ends.last().1 == n {
                if k > 0 {
                    assert(all[k] == old[k - 1]);
                }
            } else {
                assert(all[k] == old[k]);
            }
        }
        assert forall|e: int| 0 <= e < ends.len() && (#[trigger] ends[e]).1 == n implies all.contains(
            (e as usize, ends[e].0),
        ) by {
            if e == ends.len() - 1 {
                assert(all[0] == (e as usize, ends[e].0));
            } else {
                assert(rest[e] == ends[e]);
                let x = (e as usize, ends[e].0);
                let k = choose|k: int| 0 <= k < old.len() && old[k] == x;
                if ends.last().1 == n {
                    assert(all[k + 1] == x);
                } else {
                    assert(all[k] == x);
                }
            }
        }
    }
}

} // verus!
