//! Trails: ways through a graph that visit no node twice, in the order in which
//! a breadth-first search meets them.

use crate::text::{group_views, views};
use crate::wiring::{lemma_outs, outs, Wiring, WiringModel};
use vstd::prelude::*;

verus! {

/// A way through a graph: its nodes, and the edges between them.
#[derive(Debug)]
pub struct Trail {
    pub nodes: Vec<usize>,
    pub edges: Vec<usize>,
}

/// What a `Trail` says.
pub struct TrailModel {
    pub nodes: Seq<usize>,
    pub edges: Seq<usize>,
}

impl View for Trail {
    type V = TrailModel;

    open spec fn view(&self) -> TrailModel {
        TrailModel { nodes: self.nodes@, edges: self.edges@ }
    }
}

impl TrailModel {
    /// The trail with one edge more.
    pub open spec fn along(self, edge: (usize, usize)) -> TrailModel {
        TrailModel { nodes: self.nodes.push(edge.1), edges: self.edges.push(edge.0) }
    }

    /// A way along edges of the graph that visits no node twice.
    pub open spec fn is_simple(self, m: WiringModel) -> bool {
        &&& self.nodes.len() == self.edges.len() + 1
        &&& self.nodes.no_duplicates()
        &&& forall|i: int| 0 <= i < self.nodes.len() ==> #[trigger] self.nodes[i] < m.nodes
        &&& forall|i: int|
            0 <= i < self.edges.len() ==> (#[trigger] self.edges[i]) < m.ends.len()
                && m.ends[self.edges[i] as int] == (self.nodes[i], self.nodes[i + 1])
    }
}

/// The trail with each of these edges that is not skipped and leads to a new
/// node.
pub open spec fn extensions(t: TrailModel, edges: Seq<(usize, usize)>, skip: Seq<bool>) -> Seq<
    TrailModel,
>
    decreases edges.len(),
{
    if edges.len() == 0 {
        Seq::empty()
    } else {
        let before = extensions(t, edges.drop_last(), skip);
        let e = edges.last();
        if t.nodes.contains(e.1) || skip[e.0 as int] {
            before
        } else {
            before.push(t.along(e))
        }
    }
}

/// The trails with one edge more; one that has arrived goes no further.
pub open spec fn prolonged(
    ends: Seq<(usize, usize)>,
    ts: Seq<TrailModel>,
    stop: Option<usize>,
    skip: Seq<bool>,
) -> Seq<TrailModel>
    decreases ts.len(),
{
    if ts.len() == 0 {
        Seq::empty()
    } else {
        let before = prolonged(ends, ts.drop_last(), stop, skip);
        let t = ts.last();
        if stop == Some(t.nodes.last()) {
            before
        } else {
            before + extensions(t, outs(ends, t.nodes.last() as int), skip)
        }
    }
}

/// The trails with `k` edges from `src`.
pub open spec fn level(
    ends: Seq<(usize, usize)>,
    src: usize,
    stop: Option<usize>,
    skip: Seq<bool>,
    k: nat,
) -> Seq<TrailModel>
    decreases k,
{
    if k == 0 {
        seq![TrailModel { nodes: seq![src], edges: Seq::empty() }]
    } else {
        prolonged(ends, level(ends, src, stop, skip, (k - 1) as nat), stop, skip)
    }
}

/// The trails that have arrived; all of them where there is nowhere to arrive.
pub open spec fn arrivals(ts: Seq<TrailModel>, stop: Option<usize>) -> Seq<TrailModel>
    decreases ts.len(),
{
    if ts.len() == 0 {
        Seq::empty()
    } else {
        let before = arrivals(ts.drop_last(), stop);
        if stop is None || stop == Some(ts.last().nodes.last()) {
            before.push(ts.last())
        } else {
            before
        }
    }
}

/// The trails that have arrived over at least `from` and fewer than `to` edges,
/// shorter ones first.
pub open spec fn collected(
    ends: Seq<(usize, usize)>,
    src: usize,
    stop: Option<usize>,
    skip: Seq<bool>,
    from: nat,
    to: nat,
) -> Seq<TrailModel>
    decreases to,
{
    if to <= from {
        Seq::empty()
    } else {
        collected(ends, src, stop, skip, from, (to - 1) as nat) + arrivals(
            level(ends, src, stop, skip, (to - 1) as nat),
            stop,
        )
    }
}

/// The first `n` of a sequence, or all of it.
pub open spec fn first_of<T>(s: Seq<T>, n: nat) -> Seq<T> {
    if s.len() <= n {
        s
    } else {
        s.take(n as int)
    }
}

/// How many trails a limit lets through: always at least one.
pub open spec fn at_least_one(limit: nat) -> nat {
    if limit == 0 {
        1
    } else {
        limit
    }
}

/// There are no more different numbers below `n` than `n`.
pub proof fn lemma_distinct_bounded(s: Seq<usize>, n: nat)
    requires
        s.no_duplicates(),
        forall|i: int| 0 <= i < s.len() ==> #[trigger] s[i] < n,
    ensures
        s.len() <= n,
    decreases n,
{
    if n == 0 {
        if s.len() > 0 {
            assert(s[0] < n);
        }
    } else {
        let top = (n - 1) as usize;
        if s.contains(top) {
            let k = choose|k: int| 0 <= k < s.len() && s[k] == top;
            let r = s.remove(k);
            assert forall|i: int| 0 <= i < r.len() implies #[trigger] r[i] < n - 1 by {
                if i < k {
                    assert(r[i] == s[i]);
                } else {
                    assert(r[i] == s[i + 1]);
                }
            }
            assert(r.no_duplicates()) by {
                assert forall|i: int, j: int| 0 <= i < r.len() && 0 <= j < r.len() && i != j implies r[i]
                    != r[j] by {
                    let a = if i < k {
                        i
                    } else {
                        i + 1
                    };
                    let b = if j < k {
                        j
                    } else {
                        j + 1
                    };
                    assert(s[a] != s[b]);
                }
            }
            lemma_distinct_bounded(r, (n - 1) as nat);
        } else {
            assert forall|i: int| 0 <= i < s.len() implies #[trigger] s[i] < n - 1 by {
                assert(s[i] != top);
            }
            lemma_distinct_bounded(s, (n - 1) as nat);
        }
    }
}

/// A trail visits at most as many nodes as there are.
pub proof fn lemma_trail_bounded(t: TrailModel, m: WiringModel)
    requires
        t.is_simple(m),
    ensures
        t.nodes.len() <= m.nodes,
{
    lemma_distinct_bounded(t.nodes, m.nodes);
}

/// Every one is a trail with `k` edges.
pub open spec fn all_simple(ts: Seq<TrailModel>, m: WiringModel, k: nat) -> bool {
    forall|i: int| 0 <= i < ts.len() ==> (#[trigger] ts[i]).is_simple(m) && ts[i].edges.len() == k
}

proof fn lemma_extensions(t: TrailModel, edges: Seq<(usize, usize)>, skip: Seq<bool>, m: WiringModel)
    requires
        m.wf(),
        t.is_simple(m),
        forall|k: int|
            0 <= k < edges.len() ==> (#[trigger] edges[k]).0 < m.ends.len()
                && m.ends[edges[k].0 as int] == (t.nodes.last(), edges[k].1),
    ensures
        all_simple(extensions(t, edges, skip), m, t.edges.len() + 1),
    decreases edges.len(),
{
    if edges.len() > 0 {
        let rest = edges.drop_last();
        assert forall|k: int| 0 <= k < rest.len() implies (#[trigger] rest[k]).0 < m.ends.len()
            && m.ends[rest[k].0 as int] == (t.nodes.last(), rest[k].1) by {
            assert(rest[k] == edges[k]);
        }
        lemma_extensions(t, rest, skip, m);
        let e = edges[edges.len() - 1];
        let n = t.along(e);
        if !t.nodes.contains(e.1) {
            assert(m.ends[e.0 as int].1 < m.nodes);
            assert forall|i: int| 0 <= i < n.nodes.len() implies #[trigger] n.nodes[i] < m.nodes by {
                if i < t.nodes.len() {
                    assert(n.nodes[i] == t.nodes[i]);
                }
            }
            assert forall|i: int| 0 <= i < n.edges.len() implies (#[trigger] n.edges[i])
                < m.ends.len() && m.ends[n.edges[i] as int] == (n.nodes[i], n.nodes[i + 1]) by {
                if i < t.edges.len() {
                    assert(n.edges[i] == t.edges[i]);
                    assert(n.nodes[i + 1] == t.nodes[i + 1]);
                }
            }
            assert(n.is_simple(m));
        }
    }
}

proof fn lemma_prolonged(m: WiringModel, ts: Seq<TrailModel>, stop: Option<usize>, skip: Seq<bool>, k: nat)
    requires
        m.wf(),
        all_simple(ts, m, k),
    ensures
        all_simple(prolonged(m.ends, ts, stop, skip), m, k + 1),
    decreases ts.len(),
{
    if ts.len() > 0 {
        let rest = ts.drop_last();
        assert forall|i: int| 0 <= i < rest.len() implies (#[trigger] rest[i]).is_simple(m)
            && rest[i].edges.len() == k by {
            assert(rest[i] == ts[i]);
        }
        lemma_prolonged(m, rest, stop, skip, k);
        let t = ts[ts.len() - 1];
        let es = outs(m.ends, t.nodes.last() as int);
        lemma_outs(m.ends, t.nodes.last() as int);
        assert forall|q: int| 0 <= q < es.len() implies (#[trigger] es[q]).0 < m.ends.len()
            && m.ends[es[q].0 as int] == (t.nodes.last(), es[q].1) by {}
        lemma_extensions(t, es, skip, m);
    }
}

/// Every trail of a level is one, and has as many edges as the level says.
pub proof fn lemma_level(m: WiringModel, src: usize, stop: Option<usize>, skip: Seq<bool>, k: nat)
    requires
        m.wf(),
        src < m.nodes,
    ensures
        all_simple(level(m.ends, src, stop, skip, k), m, k),
    decreases k,
{
    if k > 0 {
        lemma_level(m, src, stop, skip, (k - 1) as nat);
        lemma_prolonged(
            m,
            level(m.ends, src, stop, skip, (k - 1) as nat),
            stop,
            skip,
            (k - 1) as nat,
        );
    }
}

proof fn lemma_empty_level_stays(
    ends: Seq<(usize, usize)>,
    src: usize,
    stop: Option<usize>,
    skip: Seq<bool>,
    from: nat,
    k: nat,
    to: nat,
)
    requires
        k <= to,
        level(ends, src, stop, skip, k).len() == 0,
    ensures
        level(ends, src, stop, skip, to).len() == 0,
        collected(ends, src, stop, skip, from, to) == collected(ends, src, stop, skip, from, k),
    decreases to - k,
{
    if k < to {
        lemma_empty_level_stays(ends, src, stop, skip, from, k, (to - 1) as nat);
        let last = level(ends, src, stop, skip, (to - 1) as nat);
        assert(last =~= Seq::empty());
        if to > from {
            assert(collected(ends, src, stop, skip, from, to) =~= collected(
                ends,
                src,
                stop,
                skip,
                from,
                (to - 1) as nat,
            ));
        } else {
            assert(k <= from);
        }
    }
}

proof fn lemma_collected_prefix(
    ends: Seq<(usize, usize)>,
    src: usize,
    stop: Option<usize>,
    skip: Seq<bool>,
    from: nat,
    k: nat,
    to: nat,
)
    requires
        k <= to,
    ensures
        collected(ends, src, stop, skip, from, k).is_prefix_of(
            collected(ends, src, stop, skip, from, to),
        ),
    decreases to - k,
{
    if k < to {
        lemma_collected_prefix(ends, src, stop, skip, from, k, (to - 1) as nat);
        let a = collected(ends, src, stop, skip, from, k);
        let b = collected(ends, src, stop, skip, from, (to - 1) as nat);
        let c = collected(ends, src, stop, skip, from, to);
        if to > from {
            assert(c.subrange(0, a.len() as int) =~= b.subrange(0, a.len() as int));
        }
    }
}

proof fn lemma_arrivals_prefix(ts: Seq<TrailModel>, stop: Option<usize>, n: int)
    requires
        0 <= n <= ts.len(),
    ensures
        arrivals(ts.take(n), stop).is_prefix_of(arrivals(ts, stop)),
    decreases ts.len(),
{
    if n == ts.len() {
        assert(ts.take(n) =~= ts);
        assert(arrivals(ts, stop).subrange(0, arrivals(ts, stop).len() as int) =~= arrivals(
            ts,
            stop,
        ));
    } else {
        lemma_arrivals_prefix(ts.drop_last(), stop, n);
        assert(ts.drop_last().take(n) =~= ts.take(n));
        let a = arrivals(ts.take(n), stop);
        let b = arrivals(ts.drop_last(), stop);
        assert(arrivals(ts, stop).subrange(0, a.len() as int) =~= b.subrange(0, a.len() as int));
    }
}

proof fn lemma_prefix_chain<T>(a: Seq<T>, b: Seq<T>, c: Seq<T>, d: Seq<T>)
    requires
        b.is_prefix_of(c),
        (a + c).is_prefix_of(d),
    ensures
        (a + b).len() <= d.len(),
        a + b == d.take((a + b).len() as int),
{
    assert forall|i: int| 0 <= i < (a + b).len() implies (a + b)[i] == d[i] by {
        assert((a + c)[i] == d.subrange(0, (a + c).len() as int)[i]);
        if i >= a.len() {
            assert(b[i - a.len()] == c.subrange(0, b.len() as int)[i - a.len()]);
        }
    }
    assert(a + b =~= d.take((a + b).len() as int));
}

/// Whether a trail visits a node.
fn visits(t: &Trail, n: usize) -> (r: bool)
    ensures
        r == t@.nodes.contains(n),
{
    let mut i: usize = 0;
    while i < t.nodes.len()
        invariant
            i <= t.nodes@.len(),
            forall|j: int| 0 <= j < i ==> t.nodes@[j] != n,
        decreases t.nodes.len() - i,
    {
        if t.nodes[i] == n {
            return true;
        }
        i += 1;
    }
    false
}

fn copy_numbers(v: &Vec<usize>) -> (r: Vec<usize>)
    ensures
        r@ == v@,
{
    let mut out: Vec<usize> = Vec::new();
    let mut i: usize = 0;
    while i < v.len()
        invariant
            i <= v@.len(),
            out@ == v@.take(i as int),
        decreases v.len() - i,
    {
        out.push(v[i]);
        i += 1;
        assert(out@ =~= v@.take(i as int));
    }
    assert(v@.take(i as int) =~= v@);
    out
}

/// A copy of a trail.
pub fn copy_trail(t: &Trail) -> (r: Trail)
    ensures
        r@ == t@,
{
    Trail { nodes: copy_numbers(&t.nodes), edges: copy_numbers(&t.edges) }
}

fn push_extensions(out: &mut Vec<Trail>, w: &Wiring, t: &Trail, skip: &Vec<bool>)
    requires
        w.wf(),
        t@.is_simple(w@),
        skip@.len() == w@.ends.len(),
    ensures
        views(final(out)@) == views(old(out)@) + extensions(
            t@,
            outs(w@.ends, t@.nodes.last() as int),
            skip@,
        ),
{
    broadcast use group_views;

    proof {
        w.lemma_wf();
    }
    let last: usize = t.nodes[t.nodes.len() - 1];
    let edges = w.edges_out(last);
    proof {
        lemma_outs(w@.ends, last as int);
    }
    let ghost before = views(out@);
    let mut i: usize = 0;
    assert(edges@.take(0) =~= Seq::empty());
    assert(before + extensions(t@, edges@.take(0), skip@) =~= before);
    while i < edges.len()
        invariant
            i <= edges@.len(),
            edges@ == outs(w@.ends, last as int),
            skip@.len() == w@.ends.len(),
            forall|k: int| 0 <= k < edges@.len() ==> (#[trigger] edges@[k]).0 < w@.ends.len(),
            views(out@) == before + extensions(t@, edges@.take(i as int), skip@),
        decreases edges.len() - i,
    {
        assert(edges@.take(i as int + 1).drop_last() =~= edges@.take(i as int));
        let (e, n): (usize, usize) = edges[i];
        assert(edges@[i as int] == (e, n));
        let ghost so_far = extensions(t@, edges@.take(i as int), skip@);
        if !visits(t, n) && !skip[e] {
            let mut longer = copy_trail(t);
            longer.nodes.push(n);
            longer.edges.push(e);
            assert(longer@ == t@.along((e, n)));
            out.push(longer);
            assert(before + so_far.push(longer@) =~= (before + so_far).push(longer@));
        }
        i += 1;
    }
    assert(edges@.take(i as int) =~= edges@);
}

/// The first trails from `src` that arrive, over at least `from` and at most
/// `max_hops` edges: up to `limit`, but one where there is any.
pub fn collect_trails(
    w: &Wiring,
    src: usize,
    stop: Option<usize>,
    skip: &Vec<bool>,
    from: usize,
    max_hops: usize,
    limit: usize,
) -> (r: Vec<Trail>)
    requires
        w.wf(),
        src < w@.nodes,
        skip@.len() == w@.ends.len(),
    ensures
        views(r@) == first_of(
            collected(w@.ends, src, stop, skip@, from as nat, (max_hops + 1) as nat),
            at_least_one(limit as nat),
        ),
        forall|i: int| 0 <= i < r@.len() ==> (#[trigger] r@[i])@.is_simple(w@),
{
    broadcast use group_views;

    proof {
        w.lemma_wf();
    }
    let ghost m = w@;
    let ghost all = collected(m.ends, src, stop, skip@, from as nat, (max_hops + 1) as nat);
    let ghost cap = at_least_one(limit as nat);
    let mut out: Vec<Trail> = Vec::new();
    let mut current: Vec<Trail> = Vec::new();
    let mut nodes: Vec<usize> = Vec::new();
    nodes.push(src);
    let edges: Vec<usize> = Vec::new();
    assert(nodes@ =~= seq![src]);
    current.push(Trail { nodes, edges });
    assert(views(current@) =~= level(m.ends, src, stop, skip@, 0));
    let mut k: usize = 0;
    while k <= max_hops && current.len() > 0
        invariant
            w.wf(),
            m == w@,
            m.wf(),
            src < m.nodes,
            skip@.len() == m.ends.len(),
            all == collected(m.ends, src, stop, skip@, from as nat, (max_hops + 1) as nat),
            cap == at_least_one(limit as nat),
            k <= max_hops + 1,
            current@.len() > 0 ==> k < m.nodes,
            views(current@) == level(m.ends, src, stop, skip@, k as nat),
            views(out@) == collected(m.ends, src, stop, skip@, from as nat, k as nat),
            out@.len() < cap,
            forall|i: int| 0 <= i < out@.len() ==> (#[trigger] out@[i])@.is_simple(m),
        decreases m.nodes + 1 - k,
    {
        let ghost ts = views(current@);
        proof {
            lemma_level(m, src, stop, skip@, k as nat);
            lemma_level(m, src, stop, skip@, (k + 1) as nat);
            lemma_collected_prefix(
                m.ends,
                src,
                stop,
                skip@,
                from as nat,
                (k + 1) as nat,
                (max_hops + 1) as nat,
            );
        }
        let ghost base = collected(m.ends, src, stop, skip@, from as nat, k as nat);
        let mut next: Vec<Trail> = Vec::new();
        let mut i: usize = 0;
        assert(ts.take(0) =~= Seq::empty());
        assert(base + arrivals(ts.take(0), stop) =~= base);
        while i < current.len()
            invariant
                w.wf(),
                m == w@,
                skip@.len() == m.ends.len(),
                i <= current@.len(),
                ts == views(current@),
                ts == level(m.ends, src, stop, skip@, k as nat),
                all_simple(ts, m, k as nat),
                base == collected(m.ends, src, stop, skip@, from as nat, k as nat),
                all == collected(m.ends, src, stop, skip@, from as nat, (max_hops + 1) as nat),
                cap == at_least_one(limit as nat),
                collected(m.ends, src, stop, skip@, from as nat, (k + 1) as nat).is_prefix_of(all),
                views(next@) == prolonged(m.ends, ts.take(i as int), stop, skip@),
                views(out@) == if k >= from {
                    base + arrivals(ts.take(i as int), stop)
                } else {
                    base
                },
                out@.len() < cap,
                forall|i: int| 0 <= i < out@.len() ==> (#[trigger] out@[i])@.is_simple(m),
            decreases current.len() - i,
        {
            assert(ts.take(i as int + 1).drop_last() =~= ts.take(i as int));
            let t = &current[i];
            assert(ts[i as int] == t@);
            let last: usize = t.nodes[t.nodes.len() - 1];
            let arrived = match stop {
                Some(s) => s == last,
                None => false,
            };
            if k >= from && (arrived || stop.is_none()) {
                let ghost so_far = arrivals(ts.take(i as int), stop);
                out.push(copy_trail(t));
                assert(base + so_far.push(t@) =~= (base + so_far).push(t@));
                if out.len() >= limit {
                    proof {
                        lemma_arrivals_prefix(ts, stop, i as int + 1);
                        let part = arrivals(ts.take(i as int + 1), stop);
                        let whole = base + arrivals(ts, stop);
                        assert(whole == collected(
                            m.ends,
                            src,
                            stop,
                            skip@,
                            from as nat,
                            (k + 1) as nat,
                        ));
                        lemma_prefix_chain(base, part, arrivals(ts, stop), all);
                        assert(views(out@) == base + part);
                        assert(views(out@) =~= first_of(all, cap));
                    }
                    return out;
                }
            }
            if !arrived {
                push_extensions(&mut next, w, t, skip);
            }
            i += 1;
        }
        assert(ts.take(i as int) =~= ts);
        assert(views(out@) =~= collected(m.ends, src, stop, skip@, from as nat, (k + 1) as nat));
        proof {
            if next@.len() > 0 {
                let t = views(next@)[0];
                assert(t.is_simple(m));
                lemma_trail_bounded(t, m);
            } else {
                assert(k + 1 <= m.nodes);
            }
        }
        current = next;
        k += 1;
    }
    proof {
        if k <= max_hops {
            lemma_empty_level_stays(
                m.ends,
                src,
                stop,
                skip@,
                from as nat,
                k as nat,
                (max_hops + 1) as nat,
            );
        }
    }
    out
}

// ---------------------------------------------------------------------------
// Nothing is missed
// ---------------------------------------------------------------------------

proof fn lemma_extension_found(
    t: TrailModel,
    edges: Seq<(usize, usize)>,
    skip: Seq<bool>,
    e: (usize, usize),
)
    requires
        edges.contains(e),
        !t.nodes.contains(e.1),
        !skip[e.0 as int],
    ensures
        extensions(t, edges, skip).contains(t.along(e)),
    decreases edges.len(),
{
    let all = extensions(t, edges, skip);
    let rest = edges.drop_last();
    if edges.last() == e {
        assert(all[all.len() - 1] == t.along(e));
    } else {
        let k = choose|k: int| 0 <= k < edges.len() && edges[k] == e;
        assert(rest[k] == e);
        lemma_extension_found(t, rest, skip, e);
        let before = extensions(t, rest, skip);
        let q = choose|q: int| 0 <= q < before.len() && before[q] == t.along(e);
        assert(all[q] == t.along(e));
    }
}

proof fn lemma_prolonged_found(
    ends: Seq<(usize, usize)>,
    ts: Seq<TrailModel>,
    stop: Option<usize>,
    skip: Seq<bool>,
    t: TrailModel,
    e: (usize, usize),
)
    requires
        ts.contains(t),
        stop != Some(t.nodes.last()),
        outs(ends, t.nodes.last() as int).contains(e),
        !t.nodes.contains(e.1),
        !skip[e.0 as int],
    ensures
        prolonged(ends, ts, stop, skip).contains(t.along(e)),
    decreases ts.len(),
{
    let all = prolonged(ends, ts, stop, skip);
    let rest = ts.drop_last();
    let before = prolonged(ends, rest, stop, skip);
    if ts.last() == t {
        let more = extensions(t, outs(ends, t.nodes.last() as int), skip);
        lemma_extension_found(t, outs(ends, t.nodes.last() as int), skip, e);
        let q = choose|q: int| 0 <= q < more.len() && more[q] == t.along(e);
        assert(all[before.len() + q] == t.along(e));
    } else {
        let k = choose|k: int| 0 <= k < ts.len() && ts[k] == t;
        assert(rest[k] == t);
        lemma_prolonged_found(ends, rest, stop, skip, t, e);
        let q = choose|q: int| 0 <= q < before.len() && before[q] == t.along(e);
        assert(all[q] == t.along(e));
    }
}

proof fn lemma_level_complete(
    m: WiringModel,
    src: usize,
    stop: Option<usize>,
    skip: Seq<bool>,
    t: TrailModel,
)
    requires
        m.wf(),
        t.is_simple(m),
        t.nodes[0] == src,
        forall|i: int| 0 <= i < t.edges.len() ==> !skip[(#[trigger] t.edges[i]) as int],
        forall|i: int| 0 <= i < t.edges.len() ==> stop != Some(#[trigger] t.nodes[i]),
    ensures
        level(m.ends, src, stop, skip, t.edges.len()).contains(t),
    decreases t.edges.len(),
{
    let k = t.edges.len();
    if k == 0 {
        assert(t.nodes =~= seq![src]);
        assert(t.edges =~= Seq::empty());
        assert(level(m.ends, src, stop, skip, 0)[0] == t);
    } else {
        let s = TrailModel { nodes: t.nodes.drop_last(), edges: t.edges.drop_last() };
        assert forall|i: int| 0 <= i < s.edges.len() implies (#[trigger] s.edges[i]) < m.ends.len()
            && m.ends[s.edges[i] as int] == (s.nodes[i], s.nodes[i + 1]) by {
            assert(s.edges[i] == t.edges[i]);
        }
        assert forall|i: int| 0 <= i < s.edges.len() implies !skip[(#[trigger] s.edges[i]) as int] by {
            assert(s.edges[i] == t.edges[i]);
        }
        assert forall|i: int| 0 <= i < s.edges.len() implies stop != Some(#[trigger] s.nodes[i]) by {
            assert(s.nodes[i] == t.nodes[i]);
        }
        lemma_level_complete(m, src, stop, skip, s);
        let e = t.edges[k - 1];
        let n = t.nodes[k as int];
        assert(m.ends[e as int] == (t.nodes[k - 1], n));
        lemma_outs(m.ends, s.nodes.last() as int);
        assert(outs(m.ends, s.nodes.last() as int).contains((e, n)));
        assert(!s.nodes.contains(n));
        assert(stop != Some(t.nodes[k - 1]));
        lemma_prolonged_found(
            m.ends,
            level(m.ends, src, stop, skip, (k - 1) as nat),
            stop,
            skip,
            s,
            (e, n),
        );
        assert(s.along((e, n)).nodes =~= t.nodes);
        assert(s.along((e, n)).edges =~= t.edges);
    }
}

proof fn lemma_arrival_found(ts: Seq<TrailModel>, stop: Option<usize>, t: TrailModel)
    requires
        ts.contains(t),
        stop is None || stop == Some(t.nodes.last()),
    ensures
        arrivals(ts, stop).contains(t),
    decreases ts.len(),
{
    let all = arrivals(ts, stop);
    if ts.last() == t {
        assert(all[all.len() - 1] == t);
    } else {
        let k = choose|k: int| 0 <= k < ts.len() && ts[k] == t;
        assert(ts.drop_last()[k] == t);
        lemma_arrival_found(ts.drop_last(), stop, t);
        let before = arrivals(ts.drop_last(), stop);
        let q = choose|q: int| 0 <= q < before.len() && before[q] == t;
        assert(all[q] == t);
    }
}

proof fn lemma_collected_found(
    ends: Seq<(usize, usize)>,
    src: usize,
    stop: Option<usize>,
    skip: Seq<bool>,
    from: nat,
    to: nat,
    k: nat,
    t: TrailModel,
)
    requires
        from <= k < to,
        arrivals(level(ends, src, stop, skip, k), stop).contains(t),
    ensures
        collected(ends, src, stop, skip, from, to).contains(t),
    decreases to,
{
    let all = collected(ends, src, stop, skip, from, to);
    let before = collected(ends, src, stop, skip, from, (to - 1) as nat);
    if k == to - 1 {
        let more = arrivals(level(ends, src, stop, skip, k), stop);
        let q = choose|q: int| 0 <= q < more.len() && more[q] == t;
        assert(all[before.len() + q] == t);
    } else {
        lemma_collected_found(ends, src, stop, skip, from, (to - 1) as nat, k, t);
        let q = choose|q: int| 0 <= q < before.len() && before[q] == t;
        assert(all[q] == t);
    }
}

/// Every trail from one node to another over no more than so many edges is among
/// those collected.
pub proof fn every_trail_is_collected(m: WiringModel, t: TrailModel, max_hops: nat)
    requires
        m.wf(),
        t.is_simple(m),
        t.edges.len() <= max_hops,
    ensures
        collected(
            m.ends,
            t.nodes[0],
            Some(t.nodes.last()),
            Seq::new(m.ends.len(), |e: int| false),
            0,
            max_hops + 1,
        ).contains(t),
{
    let skip = Seq::new(m.ends.len(), |e: int| false);
    let src = t.nodes[0];
    let stop = Some(t.nodes.last());
    assert forall|i: int| 0 <= i < t.edges.len() implies stop != Some(#[trigger] t.nodes[i]) by {
        assert(t.nodes[i] != t.nodes[t.nodes.len() - 1]);
    }
    lemma_level_complete(m, src, stop, skip, t);
    lemma_arrival_found(level(m.ends, src, stop, skip, t.edges.len()), stop, t);
    lemma_collected_found(m.ends, src, stop, skip, 0, max_hops + 1, t.edges.len(), t);
}

/// Whether a trail begins at a node and uses none of the edges to skip.
pub open spec fn sets_out(t: TrailModel, src: usize, skip: Seq<bool>) -> bool {
    &&& t.nodes.len() > 0
    &&& t.nodes[0] == src
    &&& forall|i: int| 0 <= i < t.edges.len() ==> !skip[(#[trigger] t.edges[i]) as int]
}

spec fn all_set_out(ts: Seq<TrailModel>, src: usize, skip: Seq<bool>) -> bool {
    forall|i: int| 0 <= i < ts.len() ==> sets_out(#[trigger] ts[i], src, skip)
}

proof fn lemma_extensions_set_out(
    t: TrailModel,
    edges: Seq<(usize, usize)>,
    src: usize,
    skip: Seq<bool>,
)
    requires
        sets_out(t, src, skip),
    ensures
        all_set_out(extensions(t, edges, skip), src, skip),
    decreases edges.len(),
{
    if edges.len() > 0 {
        lemma_extensions_set_out(t, edges.drop_last(), src, skip);
        let e = edges.last();
        if !t.nodes.contains(e.1) && !skip[e.0 as int] {
            let n = t.along(e);
            assert forall|i: int| 0 <= i < n.edges.len() implies !skip[(
            #[trigger] n.edges[i]) as int] by {
                if i < t.edges.len() {
                    assert(n.edges[i] == t.edges[i]);
                }
            }
            assert(sets_out(n, src, skip));
        }
    }
}

proof fn lemma_prolonged_set_out(
    ends: Seq<(usize, usize)>,
    ts: Seq<TrailModel>,
    stop: Option<usize>,
    src: usize,
    skip: Seq<bool>,
)
    requires
        all_set_out(ts, src, skip),
    ensures
        all_set_out(prolonged(ends, ts, stop, skip), src, skip),
    decreases ts.len(),
{
    if ts.len() > 0 {
        let rest = ts.drop_last();
        assert forall|i: int| 0 <= i < rest.len() implies sets_out(#[trigger] rest[i], src, skip) by {
            assert(rest[i] == ts[i]);
        }
        lemma_prolonged_set_out(ends, rest, stop, src, skip);
        let t = ts[ts.len() - 1];
        lemma_extensions_set_out(t, outs(ends, t.nodes.last() as int), src, skip);
    }
}

proof fn lemma_level_sets_out(
    ends: Seq<(usize, usize)>,
    src: usize,
    stop: Option<usize>,
    skip: Seq<bool>,
    k: nat,
)
    ensures
        all_set_out(level(ends, src, stop, skip, k), src, skip),
    decreases k,
{
    if k > 0 {
        lemma_level_sets_out(ends, src, stop, skip, (k - 1) as nat);
        lemma_prolonged_set_out(
            ends,
            level(ends, src, stop, skip, (k - 1) as nat),
            stop,
            src,
            skip,
        );
    }
}

proof fn lemma_arrivals_arrive(ts: Seq<TrailModel>, stop: Option<usize>)
    ensures
        forall|i: int|
            0 <= i < arrivals(ts, stop).len() ==> ts.contains(#[trigger] arrivals(ts, stop)[i]) && (
            stop matches Some(s) ==> arrivals(ts, stop)[i].nodes.last() == s),
    decreases ts.len(),
{
    if ts.len() > 0 {
        let rest = ts.drop_last();
        lemma_arrivals_arrive(rest, stop);
        let before = arrivals(rest, stop);
        let all = arrivals(ts, stop);
        assert forall|i: int| 0 <= i < all.len() implies ts.contains(#[trigger] all[i]) && (
        stop matches Some(s) ==> all[i].nodes.last() == s) by {
            if i < before.len() {
                assert(all[i] == before[i]);
                let k = choose|k: int| 0 <= k < rest.len() && rest[k] == before[i];
                assert(ts[k] == all[i]);
            } else {
                assert(ts[ts.len() - 1] == all[i]);
            }
        }
    }
}

/// What is collected are trails from the one node to the other, if there is one, over
/// none of the edges to skip and over as many edges as asked for; those over fewer
/// edges come first.
pub proof fn only_trails_are_collected(
    m: WiringModel,
    src: usize,
    stop: Option<usize>,
    skip: Seq<bool>,
    from: nat,
    to: nat,
)
    requires
        m.wf(),
        src < m.nodes,
    ensures
        forall|i: int|
            0 <= i < collected(m.ends, src, stop, skip, from, to).len() ==> {
                let t = #[trigger] collected(m.ends, src, stop, skip, from, to)[i];
                &&& t.is_simple(m)
                &&& sets_out(t, src, skip)
                &&& from <= t.edges.len() < to
                &&& stop matches Some(s) ==> t.nodes.last() == s
            },
        forall|i: int, j: int|
            0 <= i < j < collected(m.ends, src, stop, skip, from, to).len() ==> (
            #[trigger] collected(m.ends, src, stop, skip, from, to)[i]).edges.len() <= (
            #[trigger] collected(m.ends, src, stop, skip, from, to)[j]).edges.len(),
    decreases to,
{
    if to > from {
        let k = (to - 1) as nat;
        only_trails_are_collected(m, src, stop, skip, from, k);
        let ts = level(m.ends, src, stop, skip, k);
        let more = arrivals(ts, stop);
        let before = collected(m.ends, src, stop, skip, from, k);
        let all = collected(m.ends, src, stop, skip, from, to);
        lemma_level(m, src, stop, skip, k);
        lemma_level_sets_out(m.ends, src, stop, skip, k);
        lemma_arrivals_arrive(ts, stop);
        assert forall|i: int| 0 <= i < all.len() implies {
            let t = #[trigger] all[i];
            &&& t.is_simple(m)
            &&& sets_out(t, src, skip)
            &&& from <= t.edges.len() < to
            &&& stop matches Some(s) ==> t.nodes.last() == s
            &&& i >= before.len() ==> t.edges.len() == k
        } by {
            if i < before.len() {
                assert(all[i] == before[i]);
            } else {
                assert(all[i] == more[i - before.len()]);
                let q = choose|q: int| 0 <= q < ts.len() && ts[q] == all[i];
                assert(ts[q].is_simple(m));
            }
        }
        assert forall|i: int, j: int| 0 <= i < j < all.len() implies (
        #[trigger] all[i]).edges.len() <= (#[trigger] all[j]).edges.len() by {
            if i < before.len() {
                assert(all[i] == before[i]);
                if j < before.len() {
                    assert(all[j] == before[j]);
                }
            }
        }
    }
}

/// Every way out from a node over at least `from` and fewer than `to` edges, none of
/// them to skip, is among those collected.
pub proof fn every_way_out_is_collected(
    m: WiringModel,
    t: TrailModel,
    skip: Seq<bool>,
    from: nat,
    to: nat,
)
    requires
        m.wf(),
        t.is_simple(m),
        sets_out(t, t.nodes[0], skip),
        from <= t.edges.len() < to,
    ensures
        collected(m.ends, t.nodes[0], None, skip, from, to).contains(t),
{
    lemma_level_complete(m, t.nodes[0], None, skip, t);
    lemma_arrival_found(level(m.ends, t.nodes[0], None, skip, t.edges.len()), None, t);
    lemma_collected_found(m.ends, t.nodes[0], None, skip, from, to, t.edges.len(), t);
}

/// The first of a sorted sequence: what is left out is preceded by as many as asked for.
pub proof fn lemma_first_of<T>(s: Seq<T>, n: nat)
    ensures
        first_of(s, n).len() <= n,
        first_of(s, n).len() == n || first_of(s, n).len() == s.len(),
        forall|i: int| 0 <= i < first_of(s, n).len() ==> #[trigger] first_of(s, n)[i] == s[i],
{
}

} // verus!
