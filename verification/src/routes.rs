//! Shortest routes, by a search from both ends at once.

use crate::wiring::{ins, lemma_ins, lemma_outs, outs, Wiring, WiringModel};
use vstd::prelude::*;

verus! {

/// How many nodes were not met yet.
pub open spec fn unmet(seen: Seq<bool>) -> nat
    decreases seen.len(),
{
    if seen.len() == 0 {
        0
    } else {
        unmet(seen.drop_last()) + if seen.last() {
            0nat
        } else {
            1nat
        }
    }
}

/// Meeting a new node leaves one less.
pub proof fn lemma_unmet_update(seen: Seq<bool>, v: int)
    requires
        0 <= v < seen.len(),
        !seen[v],
    ensures
        unmet(seen.update(v, true)) + 1 == unmet(seen),
    decreases seen.len(),
{
    if v == seen.len() - 1 {
        assert(seen.update(v, true).drop_last() =~= seen.drop_last());
    } else {
        assert(seen.update(v, true).drop_last() =~= seen.drop_last().update(v, true));
        lemma_unmet_update(seen.drop_last(), v);
    }
}

/// One edge more reaches one node further.
proof fn lemma_reach_step(m: WiringModel, back: bool, root: int, u: int, v: int, k: int)
    requires
        m.reaches(back, root, u, k),
        m.steps(back, u, v),
        0 <= v < m.nodes,
    ensures
        m.reaches(back, root, v, k + 1),
{
    let p = choose|p: Seq<int>| #[trigger] m.leads(back, p, root, u) && p.len() == k + 1;
    let q = p.push(v);
    assert forall|i: int| 0 <= i < q.len() - 1 implies m.steps(back, #[trigger] q[i], q[i + 1]) by {
        if i < p.len() - 1 {
            assert(q[i] == p[i] && q[i + 1] == p[i + 1]);
        }
    }
    assert(m.leads(back, q, root, v));
}

/// A breadth-first search: the nodes met so far, from which node each was first
/// met and how many edges away from the root, and the nodes of the last round.
struct Search {
    seen: Vec<bool>,
    parent: Vec<usize>,
    frontier: Vec<usize>,
    depth: Ghost<Seq<nat>>,
}

impl Search {
    /// Every node that was met leads back to the root, one edge at a time.
    spec fn is_tree(&self, m: WiringModel, back: bool, root: int) -> bool {
        &&& m.wf()
        &&& self.seen@.len() == m.nodes
        &&& self.parent@.len() == m.nodes
        &&& self.depth@.len() == m.nodes
        &&& 0 <= root < m.nodes
        &&& self.seen@[root]
        &&& self.depth@[root] == 0
        &&& forall|v: int|
            0 <= v < m.nodes && #[trigger] self.seen@[v] && v != root ==> {
                let u = self.parent@[v] as int;
                &&& u < m.nodes
                &&& self.seen@[u]
                &&& m.steps(back, u, v)
                &&& self.depth@[v] == self.depth@[u] + 1
            }
    }

    /// Every node within `d` edges of the root was met, and those that are `d`
    /// edges away make up the frontier.
    spec fn is_complete(&self, m: WiringModel, back: bool, root: int, d: nat) -> bool {
        &&& self.is_tree(m, back, root)
        &&& forall|v: int| 0 <= v < m.nodes && #[trigger] self.seen@[v] ==> self.depth@[v] <= d
        &&& forall|v: int, k: int|
            0 <= v < m.nodes && 0 <= k <= d && #[trigger] m.reaches(back, root, v, k)
                ==> self.seen@[v]
        &&& forall|v: int|
            0 <= v < m.nodes && self.seen@[v] && #[trigger] self.depth@[v] == d
                ==> self.frontier@.contains(v as usize)
        &&& forall|i: int|
            0 <= i < self.frontier@.len() ==> #[trigger] self.frontier@[i] < m.nodes
                && self.seen@[self.frontier@[i] as int] && self.depth@[self.frontier@[i] as int]
                == d
    }

    /// A node that was met is as many edges away from the root as noted.
    proof fn lemma_depth(&self, m: WiringModel, back: bool, root: int, v: int)
        requires
            self.is_tree(m, back, root),
            0 <= v < m.nodes,
            self.seen@[v],
        ensures
            m.reaches(back, root, v, self.depth@[v] as int),
        decreases self.depth@[v],
    {
        if v == root {
            let p = seq![root];
            assert(m.leads(back, p, root, v));
        } else {
            let u = self.parent@[v] as int;
            self.lemma_depth(m, back, root, u);
            lemma_reach_step(m, back, root, u, v, self.depth@[u] as int);
        }
    }

    /// A node one edge beyond a complete search is met, or stands next to the
    /// frontier.
    proof fn lemma_one_further(
        &self,
        seen: Seq<bool>,
        m: WiringModel,
        back: bool,
        root: int,
        d: nat,
        v: int,
    )
        requires
            self.is_complete(m, back, root, d),
            0 <= v < m.nodes,
            m.reaches(back, root, v, d as int + 1),
            forall|x: int| 0 <= x < m.nodes && #[trigger] self.seen@[x] ==> seen[x],
            forall|k: int, x: int|
                0 <= k < self.frontier@.len() && 0 <= x < m.nodes && #[trigger] m.steps(
                    back,
                    self.frontier@[k] as int,
                    x,
                ) ==> seen[x],
        ensures
            seen[v],
    {
        let p = choose|p: Seq<int>| #[trigger] m.leads(back, p, root, v) && p.len() == d + 2;
        let u = p[d as int];
        let q = p.drop_last();
        assert(m.leads(back, q, root, u)) by {
            assert forall|i: int| 0 <= i < q.len() - 1 implies m.steps(
                back,
                #[trigger] q[i],
                q[i + 1],
            ) by {
                assert(q[i] == p[i] && q[i + 1] == p[i + 1]);
            }
        }
        assert(m.reaches(back, root, u, d as int));
        assert(self.seen@[u]);
        assert(m.steps(back, p[d as int], p[d as int + 1]));
        if self.depth@[u] == d {
            let k = choose|k: int| 0 <= k < self.frontier@.len() && self.frontier@[k] == u as usize;
            assert(m.steps(back, self.frontier@[k] as int, v));
        } else {
            self.lemma_depth(m, back, root, u);
            lemma_reach_step(m, back, root, u, v, self.depth@[u] as int);
        }
    }

    /// A search that has met its root only.
    fn start(nodes: usize, root: usize, Ghost(m): Ghost<WiringModel>, Ghost(back): Ghost<bool>)
        -> (r: Search)
        requires
            m.wf(),
            nodes == m.nodes,
            root < nodes,
        ensures
            r.is_complete(m, back, root as int, 0),
            forall|v: int| 0 <= v < m.nodes && #[trigger] r.seen@[v] ==> v == root,
    {
        let mut seen: Vec<bool> = Vec::new();
        let mut parent: Vec<usize> = Vec::new();
        let mut i: usize = 0;
        while i < nodes
            invariant
                i <= nodes,
                seen@ == Seq::new(i as nat, |k: int| false),
                parent@.len() == i,
            decreases nodes - i,
        {
            seen.push(false);
            parent.push(0);
            i += 1;
            assert(seen@ =~= Seq::new(i as nat, |k: int| false));
        }
        seen.set(root, true);
        let mut frontier: Vec<usize> = Vec::new();
        frontier.push(root);
        assert(frontier@[0] == root);
        let r = Search { seen, parent, frontier, depth: Ghost(Seq::new(nodes as nat, |k: int| 0nat)) };
        assert forall|v: int, k: int|
            0 <= v < m.nodes && 0 <= k <= 0 && #[trigger] m.reaches(
                back,
                root as int,
                v,
                k,
            ) implies r.seen@[v] by {
            let p = choose|p: Seq<int>| #[trigger]
                m.leads(back, p, root as int, v) && p.len() == k + 1;
            assert(p[0] == p.last());
        }
        assert forall|v: int|
            0 <= v < m.nodes && r.seen@[v] && #[trigger] r.depth@[v]
                == 0 implies r.frontier@.contains(v as usize) by {
            assert(v == root);
        }
        r
    }

    /// Goes one edge further from every node of the frontier, unless it meets a
    /// node that the other search has met.
    fn expand(
        &mut self,
        w: &Wiring,
        back: bool,
        other: &Vec<bool>,
        Ghost(root): Ghost<int>,
        Ghost(d): Ghost<nat>,
    ) -> (r: Option<usize>)
        requires
            w.wf(),
            old(self).is_complete(w@, back, root, d),
            other@.len() == w@.nodes,
            forall|v: int| 0 <= v < w@.nodes ==> !(#[trigger] old(self).seen@[v] && other@[v]),
        ensures
            match r {
                None => {
                    &&& final(self).is_complete(w@, back, root, d + 1)
                    &&& forall|v: int|
                        0 <= v < w@.nodes ==> !(#[trigger] final(self).seen@[v] && other@[v])
                    &&& unmet(final(self).seen@) + final(self).frontier@.len() == unmet(
                        old(self).seen@,
                    )
                },
                Some(v) => {
                    &&& final(self).is_tree(w@, back, root)
                    &&& v < w@.nodes
                    &&& final(self).seen@[v as int]
                    &&& final(self).depth@[v as int] == d + 1
                    &&& other@[v as int]
                },
            },
    {
        let ghost m = w@;
        proof {
            w.lemma_wf();
        }
        let ghost seen0 = self.seen@;
        let ghost depth0 = self.depth@;
        let ghost front = self.frontier@;
        let mut next: Vec<usize> = Vec::new();
        let mut i: usize = 0;
        while i < self.frontier.len()
            invariant
                w.wf(),
                m == w@,
                m.wf(),
                i <= front.len(),
                self.frontier@ == front,
                other@.len() == m.nodes,
                self.is_tree(m, back, root),
                seen0.len() == m.nodes,
                depth0.len() == m.nodes,
                forall|k: int|
                    0 <= k < front.len() ==> #[trigger] front[k] < m.nodes
                        && seen0[front[k] as int] && depth0[front[k] as int] == d,
                forall|v: int|
                    0 <= v < m.nodes && #[trigger] seen0[v] ==> self.seen@[v] && self.depth@[v]
                        == depth0[v] && depth0[v] <= d,
                forall|v: int|
                    0 <= v < m.nodes && #[trigger] self.seen@[v] && !seen0[v] ==> self.depth@[v]
                        == d + 1 && next@.contains(v as usize),
                forall|k: int|
                    0 <= k < next@.len() ==> #[trigger] next@[k] < m.nodes
                        && self.seen@[next@[k] as int] && !seen0[next@[k] as int],
                forall|v: int| 0 <= v < m.nodes ==> !(#[trigger] self.seen@[v] && other@[v]),
                forall|k: int, v: int|
                    0 <= k < i && 0 <= v < m.nodes && #[trigger] m.steps(back, front[k] as int, v)
                        ==> self.seen@[v],
                unmet(self.seen@) + next@.len() == unmet(seen0),
            decreases front.len() - i,
        {
            let u: usize = self.frontier[i];
            assert(front[i as int] == u);
            let edges = if back {
                w.edges_in(u)
            } else {
                w.edges_out(u)
            };
            proof {
                lemma_outs(m.ends, u as int);
                lemma_ins(m.ends, u as int);
            }
            let mut j: usize = 0;
            while j < edges.len()
                invariant
                    m == w@,
                    m.wf(),
                    i < front.len(),
                    front[i as int] == u,
                    u < m.nodes,
                    seen0[u as int],
                    depth0[u as int] == d,
                    self.frontier@ == front,
                    other@.len() == m.nodes,
                    j <= edges@.len(),
                    edges@ == if back {
                        ins(m.ends, u as int)
                    } else {
                        outs(m.ends, u as int)
                    },
                    forall|k: int|
                        0 <= k < edges@.len() ==> (#[trigger] edges@[k]).1 < m.nodes && m.steps(
                            back,
                            u as int,
                            edges@[k].1 as int,
                        ),
                    self.is_tree(m, back, root),
                    seen0.len() == m.nodes,
                    depth0.len() == m.nodes,
                    forall|v: int|
                        0 <= v < m.nodes && #[trigger] seen0[v] ==> self.seen@[v] && self.depth@[v]
                            == depth0[v] && depth0[v] <= d,
                    forall|v: int|
                        0 <= v < m.nodes && #[trigger] self.seen@[v] && !seen0[v]
                            ==> self.depth@[v] == d + 1 && next@.contains(v as usize),
                    forall|k: int|
                        0 <= k < next@.len() ==> #[trigger] next@[k] < m.nodes
                            && self.seen@[next@[k] as int] && !seen0[next@[k] as int],
                    forall|v: int| 0 <= v < m.nodes ==> !(#[trigger] self.seen@[v] && other@[v]),
                    forall|k: int, v: int|
                        0 <= k < i && 0 <= v < m.nodes && #[trigger] m.steps(
                            back,
                            front[k] as int,
                            v,
                        ) ==> self.seen@[v],
                    forall|k: int|
                        0 <= k < j ==> self.seen@[(#[trigger] edges@[k]).1 as int],
                    unmet(self.seen@) + next@.len() == unmet(seen0),
                decreases edges.len() - j,
            {
                let v: usize = edges[j].1;
                assert(edges@[j as int].1 == v);
                if !self.seen[v] {
                    proof {
                        lemma_unmet_update(self.seen@, v as int);
                    }
                    self.seen.set(v, true);
                    self.parent.set(v, u);
                    self.depth = Ghost(self.depth@.update(v as int, self.depth@[u as int] + 1));
                    let ghost next0 = next@;
                    next.push(v);
                    assert(next@[next@.len() - 1] == v);
                    assert forall|x: int|
                        0 <= x < m.nodes && #[trigger] self.seen@[x]
                            && !seen0[x] implies self.depth@[x] == d + 1 && next@.contains(
                        x as usize,
                    ) by {
                        if x != v {
                            let k = choose|k: int| 0 <= k < next0.len() && next0[k] == x as usize;
                            assert(next@[k] == x as usize);
                        }
                    }
                    if other[v] {
                        // The other search has been here: the two have met.
                        proof {
                            assert(m.steps(back, u as int, v as int));
                        }
                        return Some(v);
                    }
                }
                j += 1;
            }
            assert forall|k: int, v: int|
                0 <= k < i + 1 && 0 <= v < m.nodes && #[trigger] m.steps(
                    back,
                    front[k] as int,
                    v,
                ) implies self.seen@[v] by {
                if k == i {
                    if back {
                        let e = choose|e: int|
                            0 <= e < m.ends.len() && (#[trigger] m.ends[e]).0 == v && m.ends[e].1
                                == u;
                        assert(edges@.contains((e as usize, m.ends[e].0)));
                        let q = choose|q: int|
                            0 <= q < edges@.len() && edges@[q] == (e as usize, m.ends[e].0);
                        assert(self.seen@[edges@[q].1 as int]);
                    } else {
                        let e = choose|e: int|
                            0 <= e < m.ends.len() && (#[trigger] m.ends[e]).0 == u && m.ends[e].1
                                == v;
                        assert(edges@.contains((e as usize, m.ends[e].1)));
                        let q = choose|q: int|
                            0 <= q < edges@.len() && edges@[q] == (e as usize, m.ends[e].1);
                        assert(self.seen@[edges@[q].1 as int]);
                    }
                }
            }
            i += 1;
        }
        self.frontier = next;
        proof {
            assert forall|v: int, k: int|
                0 <= v < m.nodes && 0 <= k <= d + 1 && #[trigger] m.reaches(
                    back,
                    root,
                    v,
                    k,
                ) implies self.seen@[v] by {
                if k == d + 1 {
                    old(self).lemma_one_further(self.seen@, m, back, root, d, v);
                } else {
                    assert(seen0[v]);
                }
            }
        }
        None
    }
}

impl Search {
    /// The way from a node that was met back to the root.
    fn trace(&self, v: usize, Ghost(m): Ghost<WiringModel>, Ghost(back): Ghost<bool>, root: usize)
        -> (r: Vec<usize>)
        requires
            self.is_tree(m, back, root as int),
            v < m.nodes,
            self.seen@[v as int],
        ensures
            r@.len() == self.depth@[v as int] + 1,
            r@[0] == v,
            r@.last() == root,
            forall|i: int| 0 <= i < r@.len() ==> #[trigger] r@[i] < m.nodes,
            forall|i: int|
                0 <= i < r@.len() - 1 ==> m.steps(back, r@[i + 1] as int, #[trigger] r@[i] as int),
    {
        let mut out: Vec<usize> = Vec::new();
        out.push(v);
        let mut cur: usize = v;
        while cur != root
            invariant
                self.is_tree(m, back, root as int),
                v < m.nodes,
                cur < m.nodes,
                self.seen@[cur as int],
                out@.len() > 0,
                out@[0] == v,
                out@.last() == cur,
                out@.len() + self.depth@[cur as int] == self.depth@[v as int] + 1,
                forall|i: int| 0 <= i < out@.len() ==> #[trigger] out@[i] < m.nodes,
                forall|i: int|
                    0 <= i < out@.len() - 1 ==> m.steps(
                        back,
                        out@[i + 1] as int,
                        #[trigger] out@[i] as int,
                    ),
            decreases self.depth@[cur as int],
        {
            cur = self.parent[cur];
            out.push(cur);
        }
        out
    }
}

/// Where two complete searches have met no common node, no way between their
/// roots is as short as their depths together.
proof fn lemma_no_shorter(
    m: WiringModel,
    f: Search,
    b: Search,
    from: int,
    to: int,
    df: nat,
    db: nat,
    q: Seq<int>,
)
    requires
        f.is_complete(m, false, from, df),
        b.is_complete(m, true, to, db),
        forall|v: int| 0 <= v < m.nodes ==> !(#[trigger] f.seen@[v] && b.seen@[v]),
        m.leads(false, q, from, to),
    ensures
        q.len() >= df + db + 2,
{
    if q.len() < df + db + 2 {
        let n = q.len() - 1;
        let i = if df <= n {
            df as int
        } else {
            n
        };
        let v = q[i];
        let head = q.take(i + 1);
        assert(m.leads(false, head, from, v)) by {
            assert forall|k: int| 0 <= k < head.len() - 1 implies m.steps(
                false,
                #[trigger] head[k],
                head[k + 1],
            ) by {
                assert(head[k] == q[k] && head[k + 1] == q[k + 1]);
            }
        }
        assert(m.reaches(false, from, v, i));
        let tail = q.skip(i).reverse();
        assert(m.leads(true, tail, to, v)) by {
            assert forall|k: int| 0 <= k < tail.len() implies 0 <= #[trigger] tail[k] < m.nodes by {
                assert(tail[k] == q[n - k]);
            }
            assert forall|k: int| 0 <= k < tail.len() - 1 implies m.steps(
                true,
                #[trigger] tail[k],
                tail[k + 1],
            ) by {
                assert(tail[k] == q[n - k] && tail[k + 1] == q[n - k - 1]);
                assert(m.steps(false, q[n - k - 1], q[n - k - 1 + 1]));
            }
        }
        assert(m.reaches(true, to, v, n - i));
        assert(f.seen@[v] && b.seen@[v]);
    }
}

/// A complete search without a frontier has met everything that its root leads
/// to.
proof fn lemma_exhausted(m: WiringModel, s: Search, back: bool, root: int, d: nat, q: Seq<int>, i: int)
    requires
        s.is_complete(m, back, root, d),
        s.frontier@.len() == 0,
        m.is_way(back, q),
        q[0] == root,
        0 <= i < q.len(),
    ensures
        s.seen@[q[i]],
    decreases i,
{
    if i > 0 {
        lemma_exhausted(m, s, back, root, d, q, i - 1);
        let u = q[i - 1];
        s.lemma_depth(m, back, root, u);
        assert(m.steps(back, q[i - 1], q[i - 1 + 1]));
        if s.depth@[u] == d {
            assert(s.frontier@.contains(u as usize));
        }
        lemma_reach_step(m, back, root, u, q[i], s.depth@[u] as int);
    }
}

/// Joins the two halves of a route that meet in `v`.
fn join_halves(
    f: &Search,
    b: &Search,
    v: usize,
    from: usize,
    to: usize,
    Ghost(m): Ghost<WiringModel>,
) -> (r: Vec<usize>)
    requires
        f.is_tree(m, false, from as int),
        b.is_tree(m, true, to as int),
        v < m.nodes,
        f.seen@[v as int],
        b.seen@[v as int],
    ensures
        m.leads(false, r@.map_values(|u: usize| u as int), from as int, to as int),
        r@.len() == f.depth@[v as int] + b.depth@[v as int] + 1,
{
    let half = f.trace(v, Ghost(m), Ghost(false), from);
    let rest = b.trace(v, Ghost(m), Ghost(true), to);
    let mut out: Vec<usize> = Vec::new();
    let ghost front = half@.reverse();
    let mut i: usize = half.len();
    while i > 0
        invariant
            i <= half@.len(),
            front == half@.reverse(),
            out@ == front.take(half@.len() - i),
        decreases i,
    {
        i -= 1;
        out.push(half[i]);
        assert(out@ =~= front.take(half@.len() - i));
    }
    assert(out@ =~= front);
    let mut k: usize = 1;
    assert(rest@.subrange(1, 1) =~= Seq::<usize>::empty());
    assert(out@ =~= front + rest@.subrange(1, 1));
    while k < rest.len()
        invariant
            1 <= k <= rest@.len(),
            out@ == front + rest@.subrange(1, k as int),
        decreases rest.len() - k,
    {
        out.push(rest[k]);
        k += 1;
        assert(out@ =~= front + rest@.subrange(1, k as int));
    }
    let ghost p = out@.map_values(|u: usize| u as int);
    proof {
        let n = half@.len() as int;
        assert(front.len() == n);
        assert forall|j: int| 0 <= j < p.len() implies p[j] == if j < n {
            half@[n - 1 - j] as int
        } else {
            rest@[j - n + 1] as int
        } by {}
        assert forall|j: int| 0 <= j < p.len() implies 0 <= #[trigger] p[j] < m.nodes by {
            if j < n {
                assert(half@[n - 1 - j] < m.nodes);
            } else {
                assert(rest@[j - n + 1] < m.nodes);
            }
        }
        assert forall|j: int| 0 <= j < p.len() - 1 implies m.steps(
            false,
            #[trigger] p[j],
            p[j + 1],
        ) by {
            if j < n - 1 {
                assert(m.steps(
                    false,
                    half@[n - 2 - j + 1] as int,
                    #[trigger] half@[n - 2 - j] as int,
                ));
                assert(p[j + 1] == half@[n - 2 - j]);
            } else {
                let t = j - n + 1;
                assert(p[j] == rest@[t]) by {
                    if j == n - 1 {
                        assert(half@[0] == v && rest@[0] == v);
                    }
                }
                assert(p[j + 1] == rest@[t + 1]);
                assert(m.steps(true, rest@[t + 1] as int, #[trigger] rest@[t] as int));
            }
        }
        assert(p[0] == half@[n - 1]);
        assert(p.last() == rest@.last()) by {
            if rest@.len() == 1 {
                assert(half@[0] == v && rest@[0] == v);
            }
        }
    }
    out
}

/// A shortest way from `from` to `to`, found by going forward from the one and
/// backward from the other in turn, a whole round of edges at a time. There is
/// none exactly where no way leads there.
pub fn shortest_route(w: &Wiring, nodes: usize, from: usize, to: usize) -> (r: Option<Vec<usize>>)
    requires
        w.wf(),
        nodes == w@.nodes,
        from < nodes,
        to < nodes,
    ensures
        match r {
            Some(p) => w@.is_shortest(
                p@.map_values(|u: usize| u as int),
                from as int,
                to as int,
            ),
            None => forall|q: Seq<int>| !#[trigger] w@.leads(false, q, from as int, to as int),
        },
{
    let ghost m = w@;
    proof {
        w.lemma_wf();
    }
    if from == to {
        let mut p: Vec<usize> = Vec::new();
        p.push(from);
        assert(m.leads(false, p@.map_values(|u: usize| u as int), from as int, to as int));
        return Some(p);
    }
    let mut f = Search::start(nodes, from, Ghost(m), Ghost(false));
    let mut b = Search::start(nodes, to, Ghost(m), Ghost(true));
    let ghost mut df: nat = 0;
    let ghost mut db: nat = 0;
    while f.frontier.len() > 0 && b.frontier.len() > 0
        invariant
            w.wf(),
            m == w@,
            from < m.nodes,
            to < m.nodes,
            f.is_complete(m, false, from as int, df),
            b.is_complete(m, true, to as int, db),
            forall|v: int| 0 <= v < m.nodes ==> !(#[trigger] f.seen@[v] && b.seen@[v]),
        decreases unmet(f.seen@), if f.frontier@.len() == 0 {
            0int
        } else {
            1int
        },
    {
        let ghost f0 = f;
        if let Some(v) = f.expand(w, false, &b.seen, Ghost(from as int), Ghost(df)) {
            let p = join_halves(&f, &b, v, from, to, Ghost(m));
            proof {
                assert forall|q: Seq<int>| #[trigger]
                    m.leads(false, q, from as int, to as int) implies p@.len() <= q.len() by {
                    lemma_no_shorter(m, f0, b, from as int, to as int, df, db, q);
                }
            }
            return Some(p);
        }
        proof {
            df = df + 1;
        }
        let ghost b0 = b;
        if let Some(v) = b.expand(w, true, &f.seen, Ghost(to as int), Ghost(db)) {
            let p = join_halves(&f, &b, v, from, to, Ghost(m));
            proof {
                assert forall|q: Seq<int>| #[trigger]
                    m.leads(false, q, from as int, to as int) implies p@.len() <= q.len() by {
                    lemma_no_shorter(m, f, b0, from as int, to as int, df, db, q);
                }
            }
            return Some(p);
        }
        proof {
            db = db + 1;
        }
    }
    proof {
        assert forall|q: Seq<int>| !#[trigger] m.leads(false, q, from as int, to as int) by {
            if m.leads(false, q, from as int, to as int) {
                if f.frontier@.len() == 0 {
                    lemma_exhausted(m, f, false, from as int, df, q, q.len() - 1);
                } else {
                    let n = q.len() - 1;
                    let back = q.reverse();
                    assert(m.is_way(true, back)) by {
                        assert forall|k: int| 0 <= k < back.len() implies 0 <= #[trigger] back[k]
                            < m.nodes by {
                            assert(back[k] == q[n - k]);
                        }
                        assert forall|k: int| 0 <= k < back.len() - 1 implies m.steps(
                            true,
                            #[trigger] back[k],
                            back[k + 1],
                        ) by {
                            assert(back[k] == q[n - k] && back[k + 1] == q[n - k - 1]);
                            assert(m.steps(false, q[n - k - 1], q[n - k - 1 + 1]));
                        }
                    }
                    lemma_exhausted(m, b, true, to as int, db, back, n);
                }
            }
        }
    }
    None
}

} // verus!
