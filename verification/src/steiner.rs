//! Trees that connect chosen nodes: the nearest one that is left is joined by a
//! shortest way, until none can be reached.

use crate::routes::unmet;
use crate::wiring::{lemma_outs, outs, Wiring, WiringModel};
use vstd::prelude::*;

verus! {

/// No edge may weigh more.
pub const MAX_WEIGHT: u32 = 100;

/// Whether these edges follow one another.
pub open spec fn is_chain(m: WiringModel, es: Seq<usize>) -> bool {
    &&& forall|i: int| 0 <= i < es.len() ==> #[trigger] es[i] < m.ends.len()
    &&& forall|i: int|
        0 <= i < es.len() - 1 ==> m.ends[(#[trigger] es[i]) as int].1 == m.ends[es[i + 1] as int].0
}

/// What a chain of edges weighs.
pub open spec fn chain_weight(weights: Seq<u32>, es: Seq<usize>) -> nat
    decreases es.len(),
{
    if es.len() == 0 {
        0
    } else {
        chain_weight(weights, es.drop_last()) + weights[es.last() as int] as nat
    }
}

/// The node that a chain of edges leads to.
pub open spec fn chain_end(m: WiringModel, es: Seq<usize>) -> usize {
    m.ends[es.last() as int].1
}

/// Whether the edges lead from the tree to `t`.
pub open spec fn connects(m: WiringModel, tree: Seq<usize>, es: Seq<usize>, t: usize) -> bool {
    es.len() > 0 && is_chain(m, es) && tree.contains(m.ends[es[0] as int].0) && chain_end(m, es) == t
}

/// Whether the edges lead to one of the nodes that are left, and no edges that
/// lead to one weigh less.
pub open spec fn is_nearest(
    m: WiringModel,
    weights: Seq<u32>,
    tree: Seq<usize>,
    left: Seq<usize>,
    es: Seq<usize>,
) -> bool {
    &&& left.contains(chain_end(m, es))
    &&& connects(m, tree, es, chain_end(m, es))
    &&& forall|es2: Seq<usize>, t2: usize|
        left.contains(t2) && #[trigger] connects(m, tree, es2, t2) ==> chain_weight(weights, es)
            <= chain_weight(weights, es2)
}

/// The nodes that chains of edges lead through, in order.
pub open spec fn chain_nodes(m: WiringModel, es: Seq<usize>) -> Seq<usize> {
    es.map_values(|e: usize| m.ends[e as int].1)
}

/// The nodes of the tree that grew from `root` in these steps, in the order in
/// which they joined.
pub open spec fn joined(m: WiringModel, root: usize, steps: Seq<Seq<usize>>) -> Seq<usize>
    decreases steps.len(),
{
    if steps.len() == 0 {
        seq![root]
    } else {
        joined(m, root, steps.drop_last()) + chain_nodes(m, steps.last())
    }
}

/// The edges of the steps, in order.
pub open spec fn step_edges(steps: Seq<Seq<usize>>) -> Seq<usize>
    decreases steps.len(),
{
    if steps.len() == 0 {
        Seq::empty()
    } else {
        step_edges(steps.drop_last()) + steps.last()
    }
}

/// The sequence without the copies of `x`.
pub open spec fn without(s: Seq<usize>, x: usize) -> Seq<usize>
    decreases s.len(),
{
    if s.len() == 0 {
        Seq::empty()
    } else if s.last() == x {
        without(s.drop_last(), x)
    } else {
        without(s.drop_last(), x).push(s.last())
    }
}

/// The terminals that are left after these steps.
pub open spec fn left_after(m: WiringModel, terminals: Seq<usize>, steps: Seq<Seq<usize>>) -> Seq<
    usize,
>
    decreases steps.len(),
{
    if steps.len() == 0 {
        terminals.skip(1)
    } else {
        without(left_after(m, terminals, steps.drop_last()), chain_end(m, steps.last()))
    }
}

/// Whether each step joined the nearest terminal that was left by a shortest way
/// from the tree as it was, beginning with the first terminal alone.
pub open spec fn is_growth(
    m: WiringModel,
    weights: Seq<u32>,
    terminals: Seq<usize>,
    steps: Seq<Seq<usize>>,
) -> bool
    decreases steps.len(),
{
    steps.len() == 0 || {
        let before = steps.drop_last();
        &&& is_growth(m, weights, terminals, before)
        &&& is_nearest(
            m,
            weights,
            joined(m, terminals[0], before),
            left_after(m, terminals, before),
            steps.last(),
        )
    }
}

/// Whether no terminal that is left can be joined.
pub open spec fn is_exhausted(m: WiringModel, tree: Seq<usize>, left: Seq<usize>) -> bool {
    forall|es: Seq<usize>, t: usize| left.contains(t) ==> !#[trigger] connects(m, tree, es, t)
}

/// The weights are positive and not too large.
pub open spec fn weights_ok(m: WiringModel, weights: Seq<u32>) -> bool {
    weights.len() == m.ends.len() && forall|e: int|
        0 <= e < weights.len() ==> 1 <= #[trigger] weights[e] <= MAX_WEIGHT
}

/// A search for the nearest node: which nodes have a distance from the tree, by
/// which edge it was found, and of which it is final.
struct Reach {
    known: Vec<bool>,
    done: Vec<bool>,
    dist: Vec<u64>,
    entry: Vec<usize>,
}

impl Reach {
    spec fn inv(
        &self,
        m: WiringModel,
        weights: Seq<u32>,
        tree: Seq<bool>,
        left: Seq<bool>,
        rounds: int,
    ) -> bool {
        let n = m.nodes;
        &&& m.wf()
        &&& weights_ok(m, weights)
        &&& self.known@.len() == n && self.done@.len() == n && self.dist@.len() == n
            && self.entry@.len() == n && tree.len() == n && left.len() == n
        &&& forall|v: int| 0 <= v < n && #[trigger] tree[v] ==> self.known@[v] && self.dist@[v] == 0
        &&& forall|v: int|
            0 <= v < n && #[trigger] self.known@[v] && !tree[v] ==> {
                let e = self.entry@[v] as int;
                let u = m.ends[e].0 as int;
                &&& e < m.ends.len()
                &&& m.ends[e].1 == v
                &&& self.done@[u]
                &&& self.known@[u]
                &&& self.dist@[v] == self.dist@[u] + weights[e]
            }
        &&& forall|v: int| 0 <= v < n && #[trigger] self.done@[v] ==> self.known@[v] && !left[v]
        &&& forall|e: int|
            0 <= e < m.ends.len() && self.done@[(#[trigger] m.ends[e]).0 as int] ==> {
                let u = m.ends[e].0 as int;
                let v = m.ends[e].1 as int;
                self.known@[v] && self.dist@[v] <= self.dist@[u] + weights[e]
            }
        &&& forall|u: int, v: int|
            #![trigger self.done@[u], self.known@[v]]
            0 <= u < n && 0 <= v < n && self.done@[u] && self.known@[v] && !self.done@[v]
                ==> self.dist@[u] <= self.dist@[v]
        &&& forall|v: int|
            0 <= v < n && #[trigger] self.known@[v] ==> self.dist@[v] <= MAX_WEIGHT * rounds
        &&& rounds + unmet(self.done@) == n
    }

    /// Whether `u` is nearest among the nodes whose distance is not final.
    spec fn is_next(&self, u: int) -> bool {
        &&& 0 <= u < self.known@.len()
        &&& self.known@[u] && !self.done@[u]
        &&& forall|v: int|
            0 <= v < self.known@.len() && #[trigger] self.known@[v] && !self.done@[v]
                ==> self.dist@[u] <= self.dist@[v]
    }

    fn next(&self) -> (r: Option<usize>)
        requires
            self.known@.len() == self.done@.len(),
            self.known@.len() == self.dist@.len(),
        ensures
            match r {
                Some(u) => self.is_next(u as int),
                None => forall|v: int|
                    0 <= v < self.known@.len() && #[trigger] self.known@[v] ==> self.done@[v],
            },
    {
        let mut best: Option<usize> = None;
        let mut v: usize = 0;
        while v < self.known.len()
            invariant
                v <= self.known@.len(),
                self.known@.len() == self.done@.len(),
                self.known@.len() == self.dist@.len(),
                match best {
                    Some(u) => {
                        &&& u < v
                        &&& self.known@[u as int] && !self.done@[u as int]
                        &&& forall|x: int|
                            0 <= x < v && #[trigger] self.known@[x] && !self.done@[x]
                                ==> self.dist@[u as int] <= self.dist@[x]
                    },
                    None => forall|x: int|
                        0 <= x < v && #[trigger] self.known@[x] ==> self.done@[x],
                },
            decreases self.known.len() - v,
        {
            if self.known[v] && !self.done[v] {
                let better = match best {
                    Some(u) => self.dist[v] < self.dist[u],
                    None => true,
                };
                if better {
                    best = Some(v);
                }
            }
            v += 1;
        }
        best
    }

    /// The edges by which a node was reached from the tree.
    fn trace(
        &self,
        v: usize,
        tree: &Vec<bool>,
        w: &Wiring,
        Ghost(weights): Ghost<Seq<u32>>,
        Ghost(left): Ghost<Seq<bool>>,
        Ghost(rounds): Ghost<int>,
    ) -> (r: Vec<usize>)
        requires
            self.inv(w@, weights, tree@, left, rounds),
            v < w@.nodes,
            self.known@[v as int],
        ensures
            is_chain(w@, r@),
            chain_weight(weights, r@) == self.dist@[v as int],
            tree@[v as int] <==> r@.len() == 0,
            r@.len() > 0 ==> chain_end(w@, r@) == v && tree@[w@.ends[r@[0] as int].0 as int],
            forall|i: int|
                0 <= i < r@.len() ==> !tree@[(w@.ends[(#[trigger] r@[i]) as int].1) as int],
            forall|i: int, j: int|
                0 <= i < j < r@.len() ==> self.dist@[(w@.ends[(#[trigger] r@[i]) as int].1) as int]
                    < self.dist@[(w@.ends[(#[trigger] r@[j]) as int].1) as int],
        decreases self.dist@[v as int],
    {
        if tree[v] {
            return Vec::new();
        }
        let e: usize = self.entry[v];
        let u: usize = w.ends_of(e).0;
        let mut es = self.trace(u, tree, w, Ghost(weights), Ghost(left), Ghost(rounds));
        let ghost before = es@;
        es.push(e);
        assert(es@.drop_last() =~= before);
        proof {
            let m = w@;
            assert forall|i: int| 0 <= i < es@.len() - 1 implies m.ends[(#[trigger] es@[i]) as int].1
                == m.ends[es@[i + 1] as int].0 by {
                assert(es@[i] == before[i]);
                if i + 1 < before.len() {
                    assert(es@[i + 1] == before[i + 1]);
                }
            }
            assert forall|i: int, j: int| 0 <= i < j < es@.len() implies self.dist@[(m.ends[(
            #[trigger] es@[i]) as int].1) as int] < self.dist@[(m.ends[(#[trigger] es@[j]) as int].1) as int] by {
                assert(es@[i] == before[i]);
                if j == before.len() {
                    if i < before.len() - 1 {
                        assert(self.dist@[(m.ends[before[i] as int].1) as int] < self.dist@[(
                        m.ends[before[before.len() - 1] as int].1) as int]);
                    }
                } else {
                    assert(es@[j] == before[j]);
                }
            }
            assert(es@[0] == if before.len() > 0 {
                before[0]
            } else {
                e
            });
        }
        es
    }
}

/// Along edges from the tree, the nearest node whose distance is not final is no
/// further than where they have led, or they have only led through final nodes.
proof fn lemma_no_nearer(
    s: Reach,
    m: WiringModel,
    weights: Seq<u32>,
    tree: Seq<bool>,
    left: Seq<bool>,
    rounds: int,
    u: Option<usize>,
    es: Seq<usize>,
)
    requires
        s.inv(m, weights, tree, left, rounds),
        match u {
            Some(u) => s.is_next(u as int),
            None => forall|v: int| 0 <= v < m.nodes && #[trigger] s.known@[v] ==> s.done@[v],
        },
        is_chain(m, es),
        es.len() > 0,
        tree[m.ends[es[0] as int].0 as int],
    ensures
        ({
            let t = chain_end(m, es) as int;
            (u matches Some(x) && s.dist@[x as int] <= chain_weight(weights, es)) || (s.done@[t]
                && s.dist@[t] <= chain_weight(weights, es))
        }),
    decreases es.len(),
{
    let before = es.drop_last();
    let e = es.last() as int;
    assert(es[es.len() - 1] < m.ends.len());
    let a = m.ends[e].0 as int;
    let t = m.ends[e].1 as int;
    if before.len() > 0 {
        assert(is_chain(m, before)) by {
            assert forall|i: int| 0 <= i < before.len() implies #[trigger] before[i] < m.ends.len() by {
                assert(before[i] == es[i]);
            }
            assert forall|i: int| 0 <= i < before.len() - 1 implies m.ends[(
            #[trigger] before[i]) as int].1 == m.ends[before[i + 1] as int].0 by {
                assert(before[i] == es[i] && before[i + 1] == es[i + 1]);
            }
        }
        assert(before[0] == es[0]);
        lemma_no_nearer(s, m, weights, tree, left, rounds, u, before);
        assert(m.ends[es[es.len() - 2] as int].1 == m.ends[es[es.len() - 2 + 1] as int].0);
        assert(chain_end(m, before) == a);
    } else {
        assert(tree[a]);
        assert(s.known@[a] && s.dist@[a] == 0);
    }
    // Where the way has only led through final nodes, the next has a distance.
    if s.done@[a] {
        assert(s.known@[t]);
        if !s.done@[t] {
            assert(u is Some);
        }
    } else {
        assert(u is Some);
    }
}

impl Reach {
    /// The invariant while the edges of `u` are looked at: nothing is said yet of
    /// those from the `j`th on.
    spec fn relaxing(
        &self,
        m: WiringModel,
        weights: Seq<u32>,
        tree: Seq<bool>,
        left: Seq<bool>,
        rounds: int,
        u: int,
        es: Seq<(usize, usize)>,
        j: int,
    ) -> bool {
        let n = m.nodes;
        &&& m.wf()
        &&& weights_ok(m, weights)
        &&& self.known@.len() == n && self.done@.len() == n && self.dist@.len() == n
            && self.entry@.len() == n && tree.len() == n && left.len() == n
        &&& 0 <= u < n && self.done@[u]
        &&& forall|v: int| 0 <= v < n && #[trigger] tree[v] ==> self.known@[v] && self.dist@[v] == 0
        &&& forall|v: int|
            0 <= v < n && #[trigger] self.known@[v] && !tree[v] ==> {
                let e = self.entry@[v] as int;
                let a = m.ends[e].0 as int;
                &&& e < m.ends.len()
                &&& m.ends[e].1 == v
                &&& self.done@[a]
                &&& self.known@[a]
                &&& self.dist@[v] == self.dist@[a] + weights[e]
            }
        &&& forall|v: int| 0 <= v < n && #[trigger] self.done@[v] ==> self.known@[v] && !left[v]
            && self.dist@[v] <= self.dist@[u]
        &&& forall|e: int|
            0 <= e < m.ends.len() && self.done@[(#[trigger] m.ends[e]).0 as int] && m.ends[e].0 != u
                ==> {
                let a = m.ends[e].0 as int;
                let v = m.ends[e].1 as int;
                self.known@[v] && self.dist@[v] <= self.dist@[a] + weights[e]
            }
        &&& forall|k: int|
            0 <= k < j ==> {
                let e = (#[trigger] es[k]).0 as int;
                let v = es[k].1 as int;
                self.known@[v] && self.dist@[v] <= self.dist@[u] + weights[e]
            }
        &&& forall|v: int|
            0 <= v < n && #[trigger] self.known@[v] && !self.done@[v] ==> self.dist@[u]
                <= self.dist@[v]
        &&& forall|v: int|
            0 <= v < n && #[trigger] self.known@[v] ==> self.dist@[v] <= MAX_WEIGHT * rounds
        &&& self.dist@[u] <= MAX_WEIGHT * (rounds - 1)
        &&& rounds + unmet(self.done@) == n
    }

    /// Takes the distance of `u` as final and looks at the edges that leave it.
    fn settle(
        &mut self,
        u: usize,
        w: &Wiring,
        weights: &Vec<u32>,
        Ghost(tree): Ghost<Seq<bool>>,
        Ghost(left): Ghost<Seq<bool>>,
        Ghost(rounds): Ghost<int>,
    )
        requires
            w.wf(),
            old(self).inv(w@, weights@, tree, left, rounds),
            old(self).is_next(u as int),
            !left[u as int],
            rounds >= 0,
        ensures
            final(self).inv(w@, weights@, tree, left, rounds + 1),
            unmet(final(self).done@) < unmet(old(self).done@),
    {
        let ghost m = w@;
        let edges = w.edges_out(u);
        proof {
            lemma_outs(m.ends, u as int);
            crate::routes::lemma_unmet_update(self.done@, u as int);
        }
        self.done.set(u, true);
        let du: u64 = self.dist[u];
        let mut j: usize = 0;
        proof {
            assert(MAX_WEIGHT * rounds <= MAX_WEIGHT * (rounds + 1)) by (nonlinear_arith);
            assert(rounds + 1 <= m.nodes);
            assert(MAX_WEIGHT * (rounds + 1) <= 100 * 0xffff_ffff) by (nonlinear_arith)
                requires
                    rounds + 1 <= 0xffff_ffff,
                    MAX_WEIGHT == 100,
            ;
        }
        while j < edges.len()
            invariant
                m == w@,
                j <= edges@.len(),
                edges@ == outs(m.ends, u as int),
                forall|k: int|
                    0 <= k < edges@.len() ==> {
                        let o = #[trigger] edges@[k];
                        o.0 < m.ends.len() && m.ends[o.0 as int].0 == u && m.ends[o.0 as int].1
                            == o.1
                    },
                self.relaxing(
                    m,
                    weights@,
                    tree,
                    left,
                    rounds + 1,
                    u as int,
                    edges@,
                    j as int,
                ),
                self.dist@[u as int] == du,
                unmet(self.done@) + 1 == unmet(old(self).done@),
                MAX_WEIGHT * (rounds + 1) <= 100 * 0xffff_ffff,
            decreases edges.len() - j,
        {
            let (e, v): (usize, usize) = edges[j];
            assert(edges@[j as int] == (e, v));
            assert(m.ends[e as int].1 < m.nodes);
            assert(1 <= weights@[e as int] <= MAX_WEIGHT);
            assert(MAX_WEIGHT * (rounds + 1) == MAX_WEIGHT * rounds + MAX_WEIGHT)
                by (nonlinear_arith);
            let d: u64 = du + weights[e] as u64;
            if !self.known[v] || d < self.dist[v] {
                assert(!self.done@[v as int]);
                assert(!tree[v as int]);
                self.known.set(v, true);
                self.dist.set(v, d);
                self.entry.set(v, e);
            }
            j += 1;
        }
        proof {
            assert forall|e: int|
                0 <= e < m.ends.len() && self.done@[(#[trigger] m.ends[e]).0 as int] implies ({
                let a = m.ends[e].0 as int;
                let v = m.ends[e].1 as int;
                self.known@[v] && self.dist@[v] <= self.dist@[a] + weights@[e]
            }) by {
                if m.ends[e].0 == u {
                    assert(edges@.contains((e as usize, m.ends[e].1)));
                    let k = choose|k: int|
                        0 <= k < edges@.len() && edges@[k] == (e as usize, m.ends[e].1);
                    assert(edges@[k].1 == m.ends[e].1);
                }
            }
        }
    }

    /// A search that starts from the tree.
    fn start(
        tree: &Vec<bool>,
        Ghost(m): Ghost<WiringModel>,
        Ghost(weights): Ghost<Seq<u32>>,
        Ghost(left): Ghost<Seq<bool>>,
    ) -> (r: Reach)
        requires
            m.wf(),
            weights_ok(m, weights),
            tree@.len() == m.nodes,
            left.len() == m.nodes,
        ensures
            r.inv(m, weights, tree@, left, 0),
    {
        let mut known: Vec<bool> = Vec::new();
        let mut done: Vec<bool> = Vec::new();
        let mut dist: Vec<u64> = Vec::new();
        let mut entry: Vec<usize> = Vec::new();
        let mut v: usize = 0;
        while v < tree.len()
            invariant
                v <= tree@.len(),
                known@ == tree@.take(v as int),
                done@ == Seq::new(v as nat, |i: int| false),
                dist@ == Seq::new(v as nat, |i: int| 0u64),
                entry@.len() == v,
                unmet(done@) == v,
            decreases tree.len() - v,
        {
            known.push(tree[v]);
            let ghost before = done@;
            done.push(false);
            dist.push(0);
            entry.push(0);
            assert(done@.drop_last() =~= before);
            v += 1;
            assert(known@ =~= tree@.take(v as int));
            assert(done@ =~= Seq::new(v as nat, |i: int| false));
            assert(dist@ =~= Seq::new(v as nat, |i: int| 0u64));
        }
        assert(tree@.take(v as int) =~= tree@);
        Reach { known, done, dist, entry }
    }
}

/// Whether the flags say which nodes are in the sequence.
pub open spec fn flags(s: Seq<usize>, f: Seq<bool>) -> bool {
    &&& forall|i: int| 0 <= i < s.len() ==> #[trigger] s[i] < f.len()
    &&& forall|v: int| 0 <= v < f.len() ==> (#[trigger] f[v] <==> s.contains(v as usize))
}

/// The edges by which the nearest node that is left is joined to the tree.
fn nearest_chain(
    w: &Wiring,
    weights: &Vec<u32>,
    in_tree: &Vec<bool>,
    is_left: &Vec<bool>,
    Ghost(tree): Ghost<Seq<usize>>,
    Ghost(left): Ghost<Seq<usize>>,
) -> (r: Option<Vec<usize>>)
    requires
        w.wf(),
        weights_ok(w@, weights@),
        in_tree@.len() == w@.nodes,
        is_left@.len() == w@.nodes,
        flags(tree, in_tree@),
        flags(left, is_left@),
        forall|v: int| 0 <= v < w@.nodes ==> !(#[trigger] in_tree@[v] && is_left@[v]),
    ensures
        match r {
            Some(es) => {
                &&& is_nearest(w@, weights@, tree, left, es@)
                &&& chain_nodes(w@, es@).no_duplicates()
                &&& forall|i: int|
                    0 <= i < es@.len() ==> !in_tree@[(w@.ends[(#[trigger] es@[i]) as int].1) as int]
                &&& forall|i: int| 0 <= i < es@.len() ==> #[trigger] es@[i] < w@.ends.len()
            },
            None => is_exhausted(w@, tree, left),
        },
{
    let ghost m = w@;
    proof {
        w.lemma_wf();
    }
    let mut s = Reach::start(in_tree, Ghost(m), Ghost(weights@), Ghost(is_left@));
    let ghost mut rounds: int = 0;
    loop
        invariant
            w.wf(),
            m == w@,
            m.wf(),
            rounds >= 0,
            s.inv(m, weights@, in_tree@, is_left@, rounds),
            flags(tree, in_tree@),
            flags(left, is_left@),
            in_tree@.len() == m.nodes,
            is_left@.len() == m.nodes,
            forall|v: int| 0 <= v < m.nodes ==> !(#[trigger] in_tree@[v] && is_left@[v]),
        decreases unmet(s.done@),
    {
        match s.next() {
            None => {
                proof {
                    assert forall|es: Seq<usize>, t: usize| left.contains(t) implies !#[trigger] connects(
                        m,
                        tree,
                        es,
                        t,
                    ) by {
                        if connects(m, tree, es, t) {
                            assert(es[0] < m.ends.len());
                            let a = m.ends[es[0] as int].0;
                            assert(in_tree@[a as int]);
                            lemma_no_nearer(
                                s,
                                m,
                                weights@,
                                in_tree@,
                                is_left@,
                                rounds,
                                None,
                                es,
                            );
                            assert(is_left@[t as int]);
                        }
                    }
                }
                return None;
            },
            Some(u) => {
                if is_left[u] {
                    let es = s.trace(
                        u,
                        in_tree,
                        w,
                        Ghost(weights@),
                        Ghost(is_left@),
                        Ghost(rounds),
                    );
                    proof {
                        assert(!in_tree@[u as int]);
                        assert(left.contains(u));
                        assert(es@[0] < m.ends.len());
                        let a = m.ends[es@[0] as int].0;
                        assert(in_tree@[a as int]);
                        assert(tree.contains(a));
                        assert forall|es2: Seq<usize>, t2: usize|
                            left.contains(t2) && #[trigger] connects(
                                m,
                                tree,
                                es2,
                                t2,
                            ) implies chain_weight(weights@, es@) <= chain_weight(weights@, es2) by {
                            assert(es2[0] < m.ends.len());
                            let b = m.ends[es2[0] as int].0;
                            assert(in_tree@[b as int]);
                            lemma_no_nearer(
                                s,
                                m,
                                weights@,
                                in_tree@,
                                is_left@,
                                rounds,
                                Some(u),
                                es2,
                            );
                            assert(es2[es2.len() - 1] < m.ends.len());
                            assert(is_left@[t2 as int]);
                        }
                        let ns = chain_nodes(m, es@);
                        assert forall|i: int, j: int|
                            0 <= i < ns.len() && 0 <= j < ns.len() && i != j implies ns[i]
                            != ns[j] by {
                            if i < j {
                                assert(s.dist@[(m.ends[es@[i] as int].1) as int] < s.dist@[(
                                m.ends[es@[j] as int].1) as int]);
                            } else {
                                assert(s.dist@[(m.ends[es@[j] as int].1) as int] < s.dist@[(
                                m.ends[es@[i] as int].1) as int]);
                            }
                        }
                    }
                    return Some(es);
                }
                s.settle(
                    u,
                    w,
                    weights,
                    Ghost(in_tree@),
                    Ghost(is_left@),
                    Ghost(rounds),
                );
                proof {
                    rounds = rounds + 1;
                }
            },
        }
    }
}

// ---------------------------------------------------------------------------
// Growing
// ---------------------------------------------------------------------------

/// A tree: its nodes in the order in which they joined, its edges, and what they
/// weigh.
#[derive(Debug)]
pub struct Growth {
    pub nodes: Vec<usize>,
    pub edges: Vec<usize>,
    pub weight: u64,
}

proof fn lemma_without(s: Seq<usize>, x: usize)
    ensures
        forall|y: usize| #[trigger] without(s, x).contains(y) <==> s.contains(y) && y != x,
        without(s, x).len() <= s.len(),
        s.contains(x) ==> without(s, x).len() < s.len(),
    decreases s.len(),
{
    if s.len() > 0 {
        let rest = s.drop_last();
        lemma_without(rest, x);
        let r = without(s, x);
        let q = without(rest, x);
        assert forall|y: usize| #[trigger] r.contains(y) <==> s.contains(y) && y != x by {
            if s.contains(y) && y != x {
                let k = choose|k: int| 0 <= k < s.len() && s[k] == y;
                if k < rest.len() {
                    assert(rest[k] == y);
                    assert(q.contains(y));
                    let j = choose|j: int| 0 <= j < q.len() && q[j] == y;
                    assert(r[j] == y);
                } else {
                    assert(r[q.len() as int] == y);
                }
            }
            if r.contains(y) {
                let k = choose|k: int| 0 <= k < r.len() && r[k] == y;
                if k < q.len() {
                    assert(q[k] == y);
                    assert(q.contains(y));
                    let j = choose|j: int| 0 <= j < rest.len() && rest[j] == y;
                    assert(s[j] == y);
                } else {
                    assert(s[s.len() - 1] == y);
                }
            }
        }
        if s.contains(x) && s.last() != x {
            let k = choose|k: int| 0 <= k < s.len() && s[k] == x;
            assert(rest[k] == x);
        }
    }
}

proof fn lemma_chain_weight_push(weights: Seq<u32>, es: Seq<usize>, e: usize)
    ensures
        chain_weight(weights, es.push(e)) == chain_weight(weights, es) + weights[e as int] as nat,
{
    assert(es.push(e).drop_last() =~= es);
}

proof fn lemma_prefix_weighs_less(m: WiringModel, weights: Seq<u32>, es: Seq<usize>, n: int)
    requires
        weights_ok(m, weights),
        forall|i: int| 0 <= i < es.len() ==> #[trigger] es[i] < m.ends.len(),
        0 <= n <= es.len(),
    ensures
        chain_weight(weights, es.take(n)) + (es.len() - n) <= chain_weight(weights, es),
    decreases es.len() - n,
{
    if n == es.len() {
        assert(es.take(n) =~= es);
    } else {
        lemma_prefix_weighs_less(m, weights, es, n + 1);
        assert(es.take(n + 1) =~= es.take(n).push(es[n]));
        lemma_chain_weight_push(weights, es.take(n), es[n]);
        assert(1 <= weights[es[n] as int]);
    }
}

/// A shortest way to the nearest node that is left passes no other.
proof fn lemma_passes_none(
    m: WiringModel,
    weights: Seq<u32>,
    tree: Seq<usize>,
    left: Seq<usize>,
    es: Seq<usize>,
    i: int,
)
    requires
        weights_ok(m, weights),
        is_nearest(m, weights, tree, left, es),
        0 <= i < es.len() - 1,
    ensures
        !left.contains(m.ends[es[i] as int].1),
{
    let t = m.ends[es[i] as int].1;
    if left.contains(t) {
        let part = es.take(i + 1);
        assert(is_chain(m, part)) by {
            assert forall|k: int| 0 <= k < part.len() implies #[trigger] part[k] < m.ends.len() by {
                assert(part[k] == es[k]);
            }
            assert forall|k: int| 0 <= k < part.len() - 1 implies m.ends[(#[trigger] part[k]) as int].1
                == m.ends[part[k + 1] as int].0 by {
                assert(part[k] == es[k] && part[k + 1] == es[k + 1]);
            }
        }
        assert(part[0] == es[0]);
        assert(part.last() == es[i]);
        assert(connects(m, tree, part, t));
        lemma_prefix_weighs_less(m, weights, es, i + 1);
    }
}

fn make_flags(nodes: usize, members: &Vec<usize>, from: usize) -> (r: Vec<bool>)
    requires
        from <= members@.len(),
        forall|i: int| 0 <= i < members@.len() ==> #[trigger] members@[i] < nodes,
    ensures
        r@.len() == nodes,
        flags(members@.skip(from as int), r@),
{
    let mut f: Vec<bool> = Vec::new();
    let mut v: usize = 0;
    while v < nodes
        invariant
            v <= nodes,
            f@ == Seq::new(v as nat, |i: int| false),
        decreases nodes - v,
    {
        f.push(false);
        v += 1;
        assert(f@ =~= Seq::new(v as nat, |i: int| false));
    }
    let ghost all = members@.skip(from as int);
    let mut k: usize = from;
    while k < members.len()
        invariant
            from <= k <= members@.len(),
            f@.len() == nodes,
            all == members@.skip(from as int),
            forall|i: int| 0 <= i < members@.len() ==> #[trigger] members@[i] < nodes,
            forall|x: int|
                0 <= x < nodes ==> (#[trigger] f@[x] <==> all.take(k - from).contains(x as usize)),
        decreases members.len() - k,
    {
        let x: usize = members[k];
        let ghost before = f@;
        f.set(x, true);
        proof {
            let p = all.take(k - from);
            let q = all.take(k + 1 - from);
            assert(q =~= p.push(x));
            assert forall|y: int| 0 <= y < nodes implies (#[trigger] f@[y] <==> q.contains(
                y as usize,
            )) by {
                if p.contains(y as usize) {
                    let j = choose|j: int| 0 <= j < p.len() && p[j] == y as usize;
                    assert(q[j] == y as usize);
                }
                if y == x {
                    assert(q[p.len() as int] == x);
                }
                if q.contains(y as usize) && y != x {
                    let j = choose|j: int| 0 <= j < q.len() && q[j] == y as usize;
                    assert(p[j] == y as usize);
                }
            }
        }
        k += 1;
    }
    assert(all.take(k - from) =~= all);
    f
}

/// Grows a tree from the first terminal: as long as another one can be reached,
/// the nearest is joined by a shortest way.
pub fn grow_tree(w: &Wiring, weights: &Vec<u32>, nodes: usize, terminals: &Vec<usize>) -> (r: Growth)
    requires
        w.wf(),
        nodes == w@.nodes,
        weights_ok(w@, weights@),
        terminals@.len() > 0,
        terminals@.no_duplicates(),
        forall|i: int| 0 <= i < terminals@.len() ==> #[trigger] terminals@[i] < nodes,
    ensures
        exists|steps: Seq<Seq<usize>>| #[trigger]
            is_growth(w@, weights@, terminals@, steps) && is_exhausted(
                w@,
                joined(w@, terminals@[0], steps),
                left_after(w@, terminals@, steps),
            ) && r.nodes@ == joined(w@, terminals@[0], steps) && r.edges@ == step_edges(steps),
        r.weight == chain_weight(weights@, r.edges@),
        r.nodes@.no_duplicates(),
        forall|i: int| 0 <= i < r.nodes@.len() ==> #[trigger] r.nodes@[i] < nodes,
        forall|i: int| 0 <= i < r.edges@.len() ==> #[trigger] r.edges@[i] < w@.ends.len(),
        r.nodes@.len() == r.edges@.len() + 1,
{
    let ghost m = w@;
    proof {
        w.lemma_wf();
    }
    let root: usize = terminals[0];
    let mut tree: Vec<usize> = Vec::new();
    tree.push(root);
    let mut edges: Vec<usize> = Vec::new();
    let mut weight: u64 = 0;
    let mut in_tree = make_flags(nodes, &tree, 0);
    assert(tree@.skip(0) =~= tree@);
    let mut is_left = make_flags(nodes, terminals, 1);
    let mut count: usize = terminals.len() - 1;
    let ghost mut steps: Seq<Seq<usize>> = Seq::empty();
    proof {
        assert(tree@ =~= joined(m, root, steps));
        let left = left_after(m, terminals@, steps);
        assert forall|v: int| 0 <= v < nodes implies !(#[trigger] in_tree@[v] && is_left@[v]) by {
            if in_tree@[v] && is_left@[v] {
                let k = choose|k: int| 0 <= k < left.len() && left[k] == v as usize;
                assert(terminals@[k + 1] == v as usize);
                assert(tree@[0] == v as usize);
                assert(terminals@[0] != terminals@[k + 1]);
            }
        }
    }
    while count > 0
        invariant
            w.wf(),
            m == w@,
            m.wf(),
            nodes == m.nodes,
            weights_ok(m, weights@),
            terminals@.len() > 0,
            root == terminals@[0],
            is_growth(m, weights@, terminals@, steps),
            tree@ == joined(m, root, steps),
            edges@ == step_edges(steps),
            count == left_after(m, terminals@, steps).len(),
            in_tree@.len() == nodes,
            is_left@.len() == nodes,
            flags(tree@, in_tree@),
            flags(left_after(m, terminals@, steps), is_left@),
            forall|v: int| 0 <= v < nodes ==> !(#[trigger] in_tree@[v] && is_left@[v]),
            tree@.no_duplicates(),
            tree@.len() == edges@.len() + 1,
            forall|i: int| 0 <= i < edges@.len() ==> #[trigger] edges@[i] < m.ends.len(),
            weight == chain_weight(weights@, edges@),
            weight <= 100 * edges@.len(),
            left_after(m, terminals@, steps).no_duplicates(),
        ensures
            is_exhausted(m, tree@, left_after(m, terminals@, steps)),
        decreases count,
    {
        let ghost left = left_after(m, terminals@, steps);
        let ghost tree0 = tree@;
        let ghost edges0 = edges@;
        match nearest_chain(w, weights, &in_tree, &is_left, Ghost(tree@), Ghost(left)) {
            None => {
                break;
            },
            Some(es) => {
                let ghost flags0 = in_tree@;
                let ghost ns = chain_nodes(m, es@);
                let mut k: usize = 0;
                assert(tree0 + ns.take(0) =~= tree0);
                assert(edges0 + es@.take(0) =~= edges0);
                while k < es.len()
                    invariant
                        m == w@,
                        m.wf(),
                        nodes == m.nodes,
                        weights_ok(m, weights@),
                        k <= es@.len(),
                        ns == chain_nodes(m, es@),
                        ns.no_duplicates(),
                        flags0.len() == nodes,
                        forall|i: int|
                            0 <= i < es@.len() ==> !flags0[(m.ends[(#[trigger] es@[i]) as int].1) as int],
                        forall|i: int| 0 <= i < es@.len() ==> #[trigger] es@[i] < m.ends.len(),
                        flags(tree0, flags0),
                        tree@ == tree0 + ns.take(k as int),
                        edges@ == edges0 + es@.take(k as int),
                        in_tree@.len() == nodes,
                        flags(tree@, in_tree@),
                        forall|v: int|
                            0 <= v < nodes && #[trigger] in_tree@[v] ==> flags0[v] || ns.contains(
                                v as usize,
                            ),
                        tree@.no_duplicates(),
                        tree@.len() == edges@.len() + 1,
                        forall|i: int|
                            0 <= i < edges@.len() ==> #[trigger] edges@[i] < m.ends.len(),
                        weight == chain_weight(weights@, edges@),
                        weight <= 100 * edges@.len(),
                    decreases es.len() - k,
                {
                    let e: usize = es[k];
                    let v: usize = w.ends_of(e).1;
                    assert(ns[k as int] == v);
                    proof {
                        crate::trails::lemma_distinct_bounded(tree@, m.nodes);
                        lemma_chain_weight_push(weights@, edges@, e);
                        assert(1 <= weights@[e as int] <= MAX_WEIGHT);
                        assert(!tree@.contains(v)) by {
                            if tree@.contains(v) {
                                let j = choose|j: int| 0 <= j < tree@.len() && tree@[j] == v;
                                if j < tree0.len() {
                                    assert(tree0[j] == v);
                                    assert(flags0[v as int]);
                                } else {
                                    assert(ns[j - tree0.len()] == v);
                                }
                            }
                        }
                    }
                    let ghost t0 = tree@;
                    let ghost f0 = in_tree@;
                    tree.push(v);
                    edges.push(e);
                    weight = weight + weights[e] as u64;
                    in_tree.set(v, true);
                    proof {
                        assert(ns.take(k + 1) =~= ns.take(k as int).push(v));
                        assert(es@.take(k + 1) =~= es@.take(k as int).push(e));
                        assert(tree@ =~= tree0 + ns.take(k + 1));
                        assert(edges@ =~= edges0 + es@.take(k + 1));
                        assert forall|x: int| 0 <= x < nodes implies (#[trigger] in_tree@[x]
                            <==> tree@.contains(x as usize)) by {
                            if t0.contains(x as usize) {
                                let j = choose|j: int| 0 <= j < t0.len() && t0[j] == x as usize;
                                assert(tree@[j] == x as usize);
                            }
                            if x == v {
                                assert(tree@[t0.len() as int] == v);
                            }
                            if tree@.contains(x as usize) && x != v {
                                let j = choose|j: int|
                                    0 <= j < tree@.len() && tree@[j] == x as usize;
                                assert(t0[j] == x as usize);
                            }
                        }
                        assert(flags(tree@, in_tree@));
                        assert(ns.contains(v));
                    }
                    k += 1;
                }
                let ghost t = chain_end(m, es@);
                let last: usize = w.ends_of(es[es.len() - 1]).1;
                is_left.set(last, false);
                proof {
                    assert(es@.take(k as int) =~= es@);
                    assert(ns.take(k as int) =~= ns);
                    lemma_without(left, t);
                    let next = steps.push(es@);
                    assert(next.drop_last() =~= steps);
                    let after = without(left, t);
                    assert(left_after(m, terminals@, next) == after);
                    lemma_without_distinct(left, t);
                    assert forall|i: int| 0 <= i < after.len() implies #[trigger] after[i]
                        < nodes by {
                        assert(after.contains(after[i]));
                        assert(left.contains(after[i]));
                        let j = choose|j: int| 0 <= j < left.len() && left[j] == after[i];
                        assert(left[j] < is_left@.len());
                    }
                    assert forall|v: int| 0 <= v < nodes implies !(#[trigger] in_tree@[v]
                        && is_left@[v]) by {
                        if in_tree@[v] && is_left@[v] {
                            assert(v != t);
                            if !flags0[v] {
                                let j = choose|j: int| 0 <= j < ns.len() && ns[j] == v as usize;
                                if j < es@.len() - 1 {
                                    lemma_passes_none(m, weights@, tree0, left, es@, j);
                                }
                            }
                        }
                    }
                    steps = next;
                }
                count -= 1;
            },
        }
    }
    proof {
        if count == 0 {
            assert(is_exhausted(m, tree@, left_after(m, terminals@, steps)));
        }
    }
    Growth { nodes: tree, edges, weight }
}

proof fn lemma_without_distinct(s: Seq<usize>, x: usize)
    requires
        s.contains(x),
        s.no_duplicates(),
    ensures
        without(s, x).len() + 1 == s.len(),
        without(s, x).no_duplicates(),
    decreases s.len(),
{
    let rest = s.drop_last();
    let r = without(s, x);
    if s.last() == x {
        assert(!rest.contains(x)) by {
            if rest.contains(x) {
                let k = choose|k: int| 0 <= k < rest.len() && rest[k] == x;
                assert(s[k] != s[s.len() - 1]);
            }
        }
        lemma_without_absent(rest, x);
    } else {
        let k = choose|k: int| 0 <= k < s.len() && s[k] == x;
        assert(rest[k] == x);
        lemma_without_distinct(rest, x);
        lemma_without(rest, x);
        let q = without(rest, x);
        assert forall|i: int, j: int| 0 <= i < r.len() && 0 <= j < r.len() && i != j implies r[i]
            != r[j] by {
            if i < q.len() && j < q.len() {
                assert(q[i] != q[j]);
            } else {
                let a = if i < q.len() {
                    i
                } else {
                    j
                };
                assert(q.contains(q[a]));
                let p = choose|p: int| 0 <= p < rest.len() && rest[p] == q[a];
                assert(s[p] != s[s.len() - 1]);
            }
        }
    }
}

proof fn lemma_without_absent(s: Seq<usize>, x: usize)
    requires
        !s.contains(x),
    ensures
        without(s, x) == s,
    decreases s.len(),
{
    if s.len() > 0 {
        assert(s[s.len() - 1] != x);
        assert(!s.drop_last().contains(x)) by {
            if s.drop_last().contains(x) {
                let k = choose|k: int| 0 <= k < s.drop_last().len() && s.drop_last()[k] == x;
                assert(s[k] == x);
            }
        }
        lemma_without_absent(s.drop_last(), x);
        assert(without(s, x) =~= s);
    } else {
        assert(without(s, x) =~= s);
    }
}

proof fn lemma_left_or_joined(
    m: WiringModel,
    weights: Seq<u32>,
    terminals: Seq<usize>,
    steps: Seq<Seq<usize>>,
    t: usize,
)
    requires
        terminals.len() > 0,
        is_growth(m, weights, terminals, steps),
        terminals.contains(t),
    ensures
        joined(m, terminals[0], steps).contains(t) || left_after(m, terminals, steps).contains(t),
    decreases steps.len(),
{
    let tree = joined(m, terminals[0], steps);
    if steps.len() == 0 {
        let i = choose|i: int| 0 <= i < terminals.len() && terminals[i] == t;
        if i == 0 {
            assert(tree[0] == t);
        } else {
            assert(terminals.skip(1)[i - 1] == t);
        }
    } else {
        let before = steps.drop_last();
        lemma_left_or_joined(m, weights, terminals, before, t);
        let old_tree = joined(m, terminals[0], before);
        let old_left = left_after(m, terminals, before);
        let es = steps.last();
        if old_tree.contains(t) {
            let i = choose|i: int| 0 <= i < old_tree.len() && old_tree[i] == t;
            assert(tree[i] == t);
        } else if chain_end(m, es) == t {
            assert(chain_nodes(m, es)[es.len() - 1] == t);
            assert(tree[old_tree.len() + es.len() - 1] == t);
        } else {
            lemma_without(old_left, chain_end(m, es));
        }
    }
}

/// A finished tree holds every terminal that can be reached from it.
pub proof fn tree_holds_what_it_reaches(
    m: WiringModel,
    weights: Seq<u32>,
    terminals: Seq<usize>,
    steps: Seq<Seq<usize>>,
    t: usize,
    es: Seq<usize>,
)
    requires
        terminals.len() > 0,
        is_growth(m, weights, terminals, steps),
        is_exhausted(
            m,
            joined(m, terminals[0], steps),
            left_after(m, terminals, steps),
        ),
        terminals.contains(t),
        connects(m, joined(m, terminals[0], steps), es, t),
    ensures
        joined(m, terminals[0], steps).contains(t),
{
    lemma_left_or_joined(m, weights, terminals, steps, t);
}

} // verus!
