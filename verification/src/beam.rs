//! Best-first search in one layer of a navigable small world.
//!
//! Vectors and queries are known here by number only. How far two of them lie
//! apart is asked of a [`Metric`], as an integer that grows with the distance.

use crate::trails::lemma_distinct_bounded;
use vstd::prelude::*;

verus! {

// ---------------------------------------------------------------------------
// Distances
// ---------------------------------------------------------------------------

/// What tells how far two numbered vectors lie apart.
pub trait Metric {
    /// Whether a vector has this number; none has unless an implementation says so.
    open spec fn covers(&self, a: int) -> bool {
        false
    }

    /// The distance from the first vector to the second.
    open spec fn gap(&self, a: int, b: int) -> u32 {
        0
    }

    /// The distance from vector `a` to vector `b`.
    fn between(&self, a: usize, b: usize) -> (r: u32)
        requires
            self.covers(a as int),
            self.covers(b as int),
        ensures
            r == self.gap(a as int, b as int),
    ;
}

/// Distances that are all known beforehand: row `a` holds those from `a`.
pub struct DistanceTable {
    pub rows: Vec<Vec<u32>>,
}

impl Metric for DistanceTable {
    open spec fn covers(&self, a: int) -> bool {
        &&& 0 <= a < self.rows@.len()
        &&& forall|i: int|
            0 <= i < self.rows@.len() ==> (#[trigger] self.rows@[i])@.len() == self.rows@.len()
    }

    open spec fn gap(&self, a: int, b: int) -> u32 {
        self.rows@[a]@[b]
    }

    fn between(&self, a: usize, b: usize) -> (r: u32) {
        self.rows[a][b]
    }
}

// ---------------------------------------------------------------------------
// The nodes
// ---------------------------------------------------------------------------

/// A stored vector: the layers it stands in, from the ground up to its level,
/// and its neighbours in each.
pub struct HnswNode {
    pub level: usize,
    pub neighbors: Vec<Vec<usize>>,
}

impl HnswNode {
    /// The neighbours in a layer; none above the node's level.
    pub open spec fn links(self, layer: int) -> Seq<usize> {
        if 0 <= layer < self.neighbors@.len() {
            self.neighbors@[layer]@
        } else {
            Seq::empty()
        }
    }
}

/// The neighbour lists of all nodes in one layer.
pub open spec fn net_of(nodes: Seq<HnswNode>, layer: int) -> Seq<Seq<usize>> {
    Seq::new(nodes.len(), |i: int| nodes[i].links(layer))
}

/// Whether a node stands in the layer.
pub open spec fn stands(nodes: Seq<HnswNode>, layer: int, i: int) -> bool {
    0 <= i < nodes.len() && 0 <= layer < nodes[i].neighbors@.len()
}

/// Neighbours in a layer stand in the layer.
pub open spec fn layer_closed(nodes: Seq<HnswNode>, layer: int) -> bool {
    forall|i: int, k: int|
        stands(nodes, layer, i) && 0 <= k < nodes[i].links(layer).len() ==> stands(
            nodes,
            layer,
            #[trigger] nodes[i].links(layer)[k] as int,
        )
}

/// Each node of the path is a neighbour of the one before it.
pub open spec fn leads(net: Seq<Seq<usize>>, path: Seq<usize>) -> bool {
    &&& path.len() > 0
    &&& forall|k: int|
        0 < k < path.len() ==> path[k - 1] < net.len() && net[path[k - 1] as int].contains(
            #[trigger] path[k],
        )
}

/// Whether links lead from one node to another.
pub open spec fn reaches(net: Seq<Seq<usize>>, from: usize, to: usize) -> bool {
    exists|path: Seq<usize>| #[trigger]
        leads(net, path) && path.first() == from && path.last() == to
}

pub(crate) proof fn lemma_reaches_self(net: Seq<Seq<usize>>, a: usize)
    ensures
        reaches(net, a, a),
{
    let path = seq![a];
    assert(leads(net, path) && path.first() == a && path.last() == a);
}

pub(crate) proof fn lemma_reaches_on(net: Seq<Seq<usize>>, a: usize, b: usize, c: usize)
    requires
        reaches(net, a, b),
        b < net.len(),
        net[b as int].contains(c),
    ensures
        reaches(net, a, c),
{
    let path = choose|path: Seq<usize>| #[trigger]
        leads(net, path) && path.first() == a && path.last() == b;
    let longer = path.push(c);
    assert forall|k: int| 0 < k < longer.len() implies longer[k - 1] < net.len() && net[longer[k
        - 1] as int].contains(#[trigger] longer[k]) by {
        if k < path.len() {
            assert(longer[k] == path[k]);
        }
    }
    assert(leads(net, longer) && longer.first() == a && longer.last() == c);
}

// ---------------------------------------------------------------------------
// What has been seen
// ---------------------------------------------------------------------------

/// Marks on nodes that are all wiped at once by moving to the next epoch.
pub struct VisitedTracker {
    visited: Vec<u32>,
    epoch: u32,
}

impl VisitedTracker {
    /// No mark is from an epoch to come.
    pub closed spec fn wf(&self) -> bool {
        &&& self.epoch >= 1
        &&& forall|i: int| 0 <= i < self.visited@.len() ==> #[trigger] self.visited@[i] <= self.epoch
    }

    /// How many nodes can be marked.
    pub closed spec fn capacity(&self) -> nat {
        self.visited@.len()
    }

    /// Whether a node is marked.
    pub closed spec fn marked(&self, node: int) -> bool {
        0 <= node < self.visited@.len() && self.visited@[node] == self.epoch
    }

    /// Nothing marked, room for `capacity` nodes.
    pub fn new(capacity: usize) -> (r: VisitedTracker)
        ensures
            r.wf(),
            r.capacity() == capacity,
            forall|i: int| !#[trigger] r.marked(i),
    {
        let mut visited: Vec<u32> = Vec::new();
        let mut i: usize = 0;
        while i < capacity
            invariant
                i <= capacity,
                visited@.len() == i,
                forall|j: int| 0 <= j < i ==> #[trigger] visited@[j] == 0,
            decreases capacity - i,
        {
            visited.push(0);
            i += 1;
        }
        VisitedTracker { visited, epoch: 1 }
    }

    /// Makes room for `capacity` nodes; the marks stay.
    pub fn ensure_capacity(&mut self, capacity: usize)
        requires
            old(self).wf(),
        ensures
            final(self).wf(),
            final(self).capacity() == if old(self).capacity() < capacity {
                capacity as nat
            } else {
                old(self).capacity()
            },
            forall|i: int| #[trigger] final(self).marked(i) == old(self).marked(i),
    {
        let ghost before = *self;
        while self.visited.len() < capacity
            invariant
                self.wf(),
                self.epoch == before.epoch,
                before.visited@.len() <= self.visited@.len(),
                before.visited@.len() <= capacity ==> self.visited@.len() <= capacity,
                before.visited@.len() >= capacity ==> self.visited@.len() == before.visited@.len(),
                forall|i: int|
                    0 <= i < before.visited@.len() ==> #[trigger] self.visited@[i]
                        == before.visited@[i],
                forall|i: int|
                    before.visited@.len() <= i < self.visited@.len() ==> #[trigger] self.visited@[i]
                        == 0,
            decreases capacity - self.visited@.len(),
        {
            self.visited.push(0);
        }
    }

    /// Wipes all marks.
    pub fn advance(&mut self)
        requires
            old(self).wf(),
        ensures
            final(self).wf(),
            final(self).capacity() == old(self).capacity(),
            forall|i: int| !#[trigger] final(self).marked(i),
    {
        if self.epoch == u32::MAX {
            let ghost n = self.visited@.len();
            let mut i: usize = 0;
            while i < self.visited.len()
                invariant
                    i <= self.visited@.len(),
                    self.visited@.len() == n,
                    self.epoch == u32::MAX,
                    forall|j: int| 0 <= j < i ==> #[trigger] self.visited@[j] == 0,
                decreases self.visited@.len() - i,
            {
                self.visited.set(i, 0);
                i += 1;
            }
            self.epoch = 1;
        } else {
            self.epoch = self.epoch + 1;
        }
    }

    /// Whether a node is marked.
    pub fn is_visited(&self, node: usize) -> (r: bool)
        ensures
            r == self.marked(node as int),
    {
        if node < self.visited.len() {
            self.visited[node] == self.epoch
        } else {
            false
        }
    }

    /// Marks a node, if there is room for it.
    pub fn mark_visited(&mut self, node: usize)
        requires
            old(self).wf(),
        ensures
            final(self).wf(),
            final(self).capacity() == old(self).capacity(),
            forall|i: int| #[trigger]
                final(self).marked(i) == (old(self).marked(i) || (i == node && i < old(
                    self,
                ).capacity())),
    {
        if node < self.visited.len() {
            self.visited.set(node, self.epoch);
        }
    }
}

// ---------------------------------------------------------------------------
// Lists by distance
// ---------------------------------------------------------------------------

/// Nearest first.
pub open spec fn ascending(s: Seq<(u32, usize)>) -> bool {
    forall|i: int, j: int| 0 <= i < j < s.len() ==> (#[trigger] s[i]).0 <= (#[trigger] s[j]).0
}

/// Whether a node is in the list.
pub open spec fn lists(s: Seq<(u32, usize)>, node: usize) -> bool {
    exists|i: int| 0 <= i < s.len() && (#[trigger] s[i]).1 == node
}

/// No node is in the list twice.
pub open spec fn all_differ(s: Seq<(u32, usize)>) -> bool {
    forall|i: int, j: int| 0 <= i < j < s.len() ==> (#[trigger] s[i]).1 != (#[trigger] s[j]).1
}

/// The place in a list for a node at this distance: behind all that lie no farther.
pub open spec fn place_of(s: Seq<(u32, usize)>, key: u32) -> int
    decreases s.len(),
{
    if s.len() == 0 || s.last().0 <= key {
        s.len() as int
    } else {
        place_of(s.drop_last(), key)
    }
}

/// The list with a node in its place.
pub open spec fn placed(s: Seq<(u32, usize)>, key: u32, node: usize) -> Seq<(u32, usize)> {
    s.insert(place_of(s, key), (key, node))
}

fn insert_near(s: &mut Vec<(u32, usize)>, key: u32, node: usize) -> (at: usize)
    requires
        ascending(old(s)@),
    ensures
        at <= old(s)@.len(),
        final(s)@ == placed(old(s)@, key, node),
        final(s)@ == old(s)@.insert(at as int, (key, node)),
        ascending(final(s)@),
        forall|x: usize| #[trigger] lists(final(s)@, x) == (lists(old(s)@, x) || x == node),
{
    let ghost before = s@;
    let mut k: usize = s.len();
    assert(before.take(k as int) =~= before);
    while k > 0 && s[k - 1].0 > key
        invariant
            k <= s@.len(),
            s@ == before,
            forall|j: int| k <= j < s@.len() ==> (#[trigger] s@[j]).0 > key,
            place_of(before.take(k as int), key) == place_of(before, key),
        ensures
            k <= s@.len(),
            s@ == before,
            forall|j: int| k <= j < s@.len() ==> (#[trigger] s@[j]).0 > key,
            k > 0 ==> s@[k - 1].0 <= key,
            k == place_of(before, key),
        decreases k,
    {
        assert(before.take(k as int).drop_last() =~= before.take(k - 1));
        k -= 1;
    }
    s.insert(k, (key, node));
    proof {
        assert forall|i: int, j: int| 0 <= i < j < s@.len() implies (#[trigger] s@[i]).0 <= (
        #[trigger] s@[j]).0 by {
            let b = |m: int| if m < k { m } else { m - 1 };
            if i < k && j == k {
                if i < k - 1 {
                    assert(before[i].0 <= before[k - 1].0);
                }
            } else if i == k {
                assert(before[j - 1].0 > key);
            } else {
                assert(before[b(i)].0 <= before[b(j)].0);
            }
        }
        assert forall|x: usize| #[trigger] lists(s@, x) == (lists(before, x) || x == node) by {
            if lists(before, x) {
                let i = choose|i: int| 0 <= i < before.len() && (#[trigger] before[i]).1 == x;
                if i < k {
                    assert(s@[i].1 == x);
                } else {
                    assert(s@[i + 1].1 == x);
                }
            }
            if x == node {
                assert(s@[k as int].1 == x);
            }
            if lists(s@, x) && x != node {
                let i = choose|i: int| 0 <= i < s@.len() && (#[trigger] s@[i]).1 == x;
                if i < k {
                    assert(before[i].1 == x);
                } else {
                    assert(before[i - 1].1 == x);
                }
            }
        }
    }
    k
}

// ---------------------------------------------------------------------------
// The search
// ---------------------------------------------------------------------------

/// The distance of every vector to the query.
pub open spec fn toward<M: Metric>(metric: M, query: int) -> spec_fn(usize) -> u32 {
    |x: usize| metric.gap(x as int, query)
}

/// The list is full, and the node lies no nearer than the last in it.
pub open spec fn outbid(
    found: Seq<(u32, usize)>,
    far: spec_fn(usize) -> u32,
    ef: nat,
    node: usize,
) -> bool {
    found.len() >= ef && far(node) >= found.last().0
}

/// How far a search has come: the best nodes so far, the nodes still to be looked round
/// from, both nearest first, and all that were met.
pub struct Beam {
    pub found: Seq<(u32, usize)>,
    pub open: Seq<(u32, usize)>,
    pub seen: Seq<usize>,
}

/// The search that has met the entry alone.
pub open spec fn started(far: spec_fn(usize) -> u32, entry: usize) -> Beam {
    Beam {
        found: seq![(far(entry), entry)],
        open: seq![(far(entry), entry)],
        seen: seq![entry],
    }
}

/// The list without its last where it is too long.
pub open spec fn cut_to(s: Seq<(u32, usize)>, ef: nat) -> Seq<(u32, usize)> {
    if s.len() > ef {
        s.drop_last()
    } else {
        s
    }
}

/// The search when it comes by a node. One met before changes nothing; a new one is taken
/// where there is room or it is nearer than the last.
pub open spec fn meets(b: Beam, far: spec_fn(usize) -> u32, ef: nat, x: usize) -> Beam {
    if b.seen.contains(x) {
        b
    } else if b.found.len() < ef || far(x) < b.found.last().0 {
        Beam {
            found: cut_to(placed(b.found, far(x), x), ef),
            open: placed(b.open, far(x), x),
            seen: b.seen.push(x),
        }
    } else {
        Beam { found: b.found, open: b.open, seen: b.seen.push(x) }
    }
}

/// The search when it has come by these nodes, in order.
pub open spec fn meets_all(b: Beam, far: spec_fn(usize) -> u32, ef: nat, near: Seq<usize>) -> Beam
    decreases near.len(),
{
    if near.len() == 0 {
        b
    } else {
        meets(meets_all(b, far, ef, near.drop_last()), far, ef, near.last())
    }
}

/// The search when it has looked round from the nearest open node.
pub open spec fn turned(b: Beam, net: Seq<Seq<usize>>, far: spec_fn(usize) -> u32, ef: nat) -> Beam {
    meets_all(
        Beam { found: b.found, open: b.open.remove(0), seen: b.seen },
        far,
        ef,
        net[b.open[0].1 as int],
    )
}

/// Whether there is nothing left to look round from that lies no farther than the last
/// found.
pub open spec fn is_over(b: Beam) -> bool {
    b.open.len() == 0 || b.open[0].0 > b.found.last().0
}

/// The search after this many turns.
pub open spec fn after_turns(
    net: Seq<Seq<usize>>,
    far: spec_fn(usize) -> u32,
    entry: usize,
    ef: nat,
    turns: nat,
) -> Beam
    decreases turns,
{
    if turns == 0 {
        started(far, entry)
    } else {
        turned(after_turns(net, far, entry, ef, (turns - 1) as nat), net, far, ef)
    }
}

/// Whether these nodes are what the search has found when it is first over: it always
/// looks round from the nearest open node.
#[verifier::opaque]
pub open spec fn is_expanded(
    net: Seq<Seq<usize>>,
    far: spec_fn(usize) -> u32,
    entry: usize,
    ef: nat,
    found: Seq<(u32, usize)>,
) -> bool {
    exists|turns: nat|
        {
            &&& is_over(#[trigger] after_turns(net, far, entry, ef, turns))
            &&& after_turns(net, far, entry, ef, turns).found == found
            &&& forall|t: nat| t < turns ==> !is_over(#[trigger] after_turns(net, far, entry, ef, t))
        }
}

/// What a search of a layer from `entry` with room for `ef` nodes ends with: what it
/// finds by looking round from the nearest open node again and again. These are
/// nodes that links lead to, each once and with its distance, nearest first. No
/// neighbour of a node found was left out but for nearer ones that fill the list.
pub open spec fn is_found(
    net: Seq<Seq<usize>>,
    far: spec_fn(usize) -> u32,
    entry: usize,
    ef: nat,
    found: Seq<(u32, usize)>,
) -> bool {
    &&& found.len() >= 1
    &&& found.len() <= (if ef >= 1 {
        ef
    } else {
        1
    })
    &&& ascending(found)
    &&& all_differ(found)
    &&& forall|i: int|
        0 <= i < found.len() ==> (#[trigger] found[i]).0 == far(found[i].1) && reaches(
            net,
            entry,
            found[i].1,
        )
    &&& lists(found, entry) || outbid(found, far, ef, entry)
    &&& forall|i: int, x: usize|
        0 <= i < found.len() && net[(#[trigger] found[i]).1 as int].contains(x) ==> #[trigger] lists(
            found,
            x,
        ) || outbid(found, far, ef, x)
    &&& is_expanded(net, far, entry, ef, found)
}

/// Whether a search has come this far without having been over.
#[verifier::opaque]
spec fn is_underway(
    net: Seq<Seq<usize>>,
    far: spec_fn(usize) -> u32,
    entry: usize,
    ef: nat,
    b: Beam,
    turns: nat,
) -> bool {
    &&& b == after_turns(net, far, entry, ef, turns)
    &&& forall|t: nat| t < turns ==> !is_over(#[trigger] after_turns(net, far, entry, ef, t))
}

proof fn lemma_underway_begins(
    net: Seq<Seq<usize>>,
    far: spec_fn(usize) -> u32,
    entry: usize,
    ef: nat,
)
    ensures
        is_underway(net, far, entry, ef, started(far, entry), 0),
{
    reveal(is_underway);
}

proof fn lemma_underway_turns(
    net: Seq<Seq<usize>>,
    far: spec_fn(usize) -> u32,
    entry: usize,
    ef: nat,
    b: Beam,
    turns: nat,
)
    requires
        is_underway(net, far, entry, ef, b, turns),
        !is_over(b),
    ensures
        is_underway(net, far, entry, ef, turned(b, net, far, ef), turns + 1),
{
    reveal(is_underway);
    assert forall|t: nat| t < turns + 1 implies !is_over(
        #[trigger] after_turns(net, far, entry, ef, t),
    ) by {
        if t == turns {
            assert(after_turns(net, far, entry, ef, t) == b);
        }
    }
}

proof fn lemma_underway_ends(
    net: Seq<Seq<usize>>,
    far: spec_fn(usize) -> u32,
    entry: usize,
    ef: nat,
    b: Beam,
    turns: nat,
)
    requires
        is_underway(net, far, entry, ef, b, turns),
        is_over(b),
    ensures
        is_expanded(net, far, entry, ef, b.found),
{
    reveal(is_underway);
    reveal(is_expanded);
    assert(is_over(after_turns(net, far, entry, ef, turns)));
}

/// What the search holds midway: `found` is the best so far, `open` is still to
/// be looked round from, `seen` is all that was met. A node found that is no longer
/// open, other than `current`, has had all its neighbours met.
#[verifier::opaque]
spec fn searching(
    net: Seq<Seq<usize>>,
    far: spec_fn(usize) -> u32,
    entry: usize,
    ef: nat,
    found: Seq<(u32, usize)>,
    open: Seq<(u32, usize)>,
    seen: Seq<usize>,
    current: Option<usize>,
) -> bool {
    &&& found.len() >= 1
    &&& found.len() <= (if ef >= 1 {
        ef
    } else {
        1
    })
    &&& ascending(found)
    &&& ascending(open)
    &&& all_differ(found)
    &&& seen.no_duplicates()
    &&& forall|i: int|
        0 <= i < found.len() ==> (#[trigger] found[i]).0 == far(found[i].1) && seen.contains(
            found[i].1,
        )
    &&& forall|i: int|
        0 <= i < open.len() ==> (#[trigger] open[i]).0 == far(open[i].1) && seen.contains(open[i].1)
    &&& forall|i: int|
        0 <= i < seen.len() ==> reaches(net, entry, #[trigger] seen[i]) && seen[i] < net.len()
    &&& seen.contains(entry)
    &&& forall|x: usize| #[trigger]
        seen.contains(x) ==> lists(found, x) || outbid(found, far, ef, x)
    &&& forall|i: int, x: usize|
        0 <= i < found.len() && current != Some((#[trigger] found[i]).1) && !lists(open, found[i].1)
            && net[found[i].1 as int].contains(x) ==> #[trigger] seen.contains(x)
}

/// Once everything open is farther than everything found, the search is done.
proof fn lemma_search_ends(
    net: Seq<Seq<usize>>,
    far: spec_fn(usize) -> u32,
    entry: usize,
    ef: nat,
    found: Seq<(u32, usize)>,
    open: Seq<(u32, usize)>,
    seen: Seq<usize>,
)
    requires
        searching(net, far, entry, ef, found, open, seen, None),
        forall|i: int| 0 <= i < open.len() ==> (#[trigger] open[i]).0 > found.last().0,
        is_expanded(net, far, entry, ef, found),
    ensures
        is_found(net, far, entry, ef, found),
{
    reveal(searching);
    assert forall|i: int| 0 <= i < found.len() implies (#[trigger] found[i]).0 == far(found[i].1)
        && reaches(net, entry, found[i].1) by {
        assert(seen.contains(found[i].1));
    }
    assert forall|i: int, x: usize|
        0 <= i < found.len() && net[(#[trigger] found[i]).1 as int].contains(x) implies #[trigger] lists(
        found,
        x,
    ) || outbid(found, far, ef, x) by {
        if lists(open, found[i].1) {
            let k = choose|k: int| 0 <= k < open.len() && (#[trigger] open[k]).1 == found[i].1;
            assert(open[k].0 == found[i].0);
            if i < found.len() - 1 {
                assert(found[i].0 <= found[found.len() - 1].0);
            }
        }
        assert(seen.contains(x));
    }
}

/// Meeting a node for the first time and putting it into both lists.
#[verifier::rlimit(60)]
proof fn lemma_search_accepts(
    net: Seq<Seq<usize>>,
    far: spec_fn(usize) -> u32,
    entry: usize,
    ef: nat,
    before: (Seq<(u32, usize)>, Seq<(u32, usize)>, Seq<usize>),
    x: usize,
    at: int,
    open: Seq<(u32, usize)>,
    current: usize,
)
    requires
        searching(net, far, entry, ef, before.0, before.1, before.2, Some(current)),
        !before.2.contains(x),
        x < net.len(),
        reaches(net, entry, x),
        before.0.len() < ef || far(x) < before.0.last().0,
        0 <= at <= before.0.len(),
        ascending(before.0.insert(at, (far(x), x))),
        ascending(open),
        forall|i: int| 0 <= i < open.len() ==> (#[trigger] open[i]).0 == far(open[i].1),
        forall|y: usize| #[trigger] lists(open, y) == (lists(before.1, y) || y == x),
    ensures
        ({
            let grown = before.0.insert(at, (far(x), x));
            searching(
                net,
                far,
                entry,
                ef,
                if grown.len() > ef {
                    grown.drop_last()
                } else {
                    grown
                },
                open,
                before.2.push(x),
                Some(current),
            )
        }),
{
    reveal(searching);
    let found = before.0;
    let seen = before.2.push(x);
    let grown = found.insert(at, (far(x), x));
    let kept = if grown.len() > ef {
        grown.drop_last()
    } else {
        grown
    };
    assert(seen[before.2.len() as int] == x);
    assert forall|y: usize| before.2.contains(y) implies #[trigger] seen.contains(y) by {
        let j = choose|j: int| 0 <= j < before.2.len() && before.2[j] == y;
        assert(seen[j] == y);
    }
    let back = |m: int| if m < at { m } else { m - 1 };
    assert forall|m: int| 0 <= m < grown.len() && m != at implies #[trigger] grown[m] == found[back(
        m,
    )] by {}
    assert(!lists(found, x)) by {
        if lists(found, x) {
            let i = choose|i: int| 0 <= i < found.len() && (#[trigger] found[i]).1 == x;
            assert(before.2.contains(found[i].1));
        }
    }
    assert(all_differ(kept)) by {
        assert forall|i: int, j: int| 0 <= i < j < kept.len() implies (#[trigger] kept[i]).1 != (
        #[trigger] kept[j]).1 by {
            assert(kept[i] == grown[i] && kept[j] == grown[j]);
            if i == at {
                assert(found[j - 1].1 != x);
            } else if j == at {
                assert(found[i].1 != x);
            } else {
                assert(found[back(i)].1 != found[back(j)].1);
            }
        }
    }
    assert forall|i: int| 0 <= i < kept.len() implies (#[trigger] kept[i]).0 == far(kept[i].1)
        && seen.contains(kept[i].1) by {
        assert(kept[i] == grown[i]);
        if i != at {
            assert(before.2.contains(found[back(i)].1));
        }
    }
    assert forall|i: int| 0 <= i < open.len() implies (#[trigger] open[i]).0 == far(open[i].1)
        && seen.contains(open[i].1) by {
        assert(lists(open, open[i].1));
        if open[i].1 != x {
            let k = choose|k: int| 0 <= k < before.1.len() && (#[trigger] before.1[k]).1 == open[i].1;
            assert(before.2.contains(before.1[k].1));
        }
    }
    assert(seen.no_duplicates()) by {
        assert forall|i: int, j: int| 0 <= i < seen.len() && 0 <= j < seen.len() && i != j implies seen[i]
            != seen[j] by {
            if i < before.2.len() {
                assert(before.2.contains(before.2[i]));
            }
            if j < before.2.len() {
                assert(before.2.contains(before.2[j]));
            }
        }
    }
    assert forall|i: int| 0 <= i < seen.len() implies reaches(net, entry, #[trigger] seen[i])
        && seen[i] < net.len() by {
        if i < before.2.len() {
            assert(before.2[i] == seen[i]);
        }
    }
    // The last kept lies no farther than the last before, once the list is full.
    assert(found.len() >= ef ==> kept.last().0 <= found.last().0) by {
        if found.len() >= ef {
            let m = kept.len() - 1;
            assert(kept[m] == grown[m]);
            if m != at {
                if back(m) < found.len() - 1 {
                    assert(found[back(m)].0 <= found[found.len() - 1].0);
                }
            }
        }
    }
    assert forall|y: usize| #[trigger] seen.contains(y) implies lists(kept, y) || outbid(
        kept,
        far,
        ef,
        y,
    ) by {
        if y != x && !before.2.contains(y) {
            let j = choose|j: int| 0 <= j < seen.len() && seen[j] == y;
            assert(before.2[j] == y);
        }
        if y == x || lists(found, y) {
            let i = if y == x {
                at
            } else {
                let k = choose|k: int| 0 <= k < found.len() && (#[trigger] found[k]).1 == y;
                if k < at {
                    k
                } else {
                    k + 1
                }
            };
            assert(grown[i].1 == y);
            assert(grown[i].0 == far(y));
            if i < kept.len() {
                assert(kept[i].1 == y);
            } else {
                assert(grown[kept.len() - 1].0 <= grown[i].0);
            }
        } else {
            assert(outbid(found, far, ef, y));
        }
    }
    assert forall|i: int, y: usize|
        0 <= i < kept.len() && Some(current) != Some((#[trigger] kept[i]).1) && !lists(
            open,
            kept[i].1,
        ) && net[kept[i].1 as int].contains(y) implies #[trigger] seen.contains(y) by {
        assert(kept[i] == grown[i]);
        if i != at {
            assert(found[back(i)] == kept[i]);
            assert(!lists(before.1, kept[i].1));
            assert(before.2.contains(y));
        } else {
            assert(lists(open, x));
        }
    }
    assert(ascending(kept)) by {
        assert forall|i: int, j: int| 0 <= i < j < kept.len() implies (#[trigger] kept[i]).0 <= (
        #[trigger] kept[j]).0 by {
            assert(kept[i] == grown[i] && kept[j] == grown[j]);
        }
    }
}

/// Meeting a node for the first time that is outbid.
proof fn lemma_search_rejects(
    net: Seq<Seq<usize>>,
    far: spec_fn(usize) -> u32,
    entry: usize,
    ef: nat,
    found: Seq<(u32, usize)>,
    open: Seq<(u32, usize)>,
    seen: Seq<usize>,
    x: usize,
    current: usize,
)
    requires
        searching(net, far, entry, ef, found, open, seen, Some(current)),
        !seen.contains(x),
        x < net.len(),
        reaches(net, entry, x),
        outbid(found, far, ef, x),
    ensures
        searching(net, far, entry, ef, found, open, seen.push(x), Some(current)),
{
    reveal(searching);
    let more = seen.push(x);
    assert(more[seen.len() as int] == x);
    assert forall|y: usize| seen.contains(y) implies #[trigger] more.contains(y) by {
        let j = choose|j: int| 0 <= j < seen.len() && seen[j] == y;
        assert(more[j] == y);
    }
    assert(more.no_duplicates()) by {
        assert forall|i: int, j: int| 0 <= i < more.len() && 0 <= j < more.len() && i != j implies more[i]
            != more[j] by {
            if i < seen.len() {
                assert(seen.contains(seen[i]));
            }
            if j < seen.len() {
                assert(seen.contains(seen[j]));
            }
        }
    }
    assert forall|i: int| 0 <= i < more.len() implies reaches(net, entry, #[trigger] more[i])
        && more[i] < net.len() by {
        if i < seen.len() {
            assert(seen[i] == more[i]);
        }
    }
    assert forall|y: usize| #[trigger] more.contains(y) implies lists(found, y) || outbid(
        found,
        far,
        ef,
        y,
    ) by {
        let j = choose|j: int| 0 <= j < more.len() && more[j] == y;
        if j < seen.len() {
            assert(seen.contains(y));
        }
    }
    assert forall|i: int, y: usize|
        0 <= i < found.len() && Some(current) != Some((#[trigger] found[i]).1) && !lists(
            open,
            found[i].1,
        ) && net[found[i].1 as int].contains(y) implies #[trigger] more.contains(y) by {
        assert(seen.contains(y));
    }
}

/// The search begins with the entry alone.
proof fn lemma_search_begins(
    net: Seq<Seq<usize>>,
    far: spec_fn(usize) -> u32,
    entry: usize,
    ef: nat,
    start: Seq<(u32, usize)>,
)
    requires
        entry < net.len(),
        start == seq![(far(entry), entry)],
    ensures
        searching(net, far, entry, ef, start, start, seq![entry], None),
{
    reveal(searching);
    lemma_reaches_self(net, entry);
    let seen = seq![entry];
    assert(seen[0] == entry);
    assert(start[0].1 == entry);
    assert(lists(start, entry));
}

/// What is known of the lists while the search goes on.
proof fn lemma_search_holds(
    net: Seq<Seq<usize>>,
    far: spec_fn(usize) -> u32,
    entry: usize,
    ef: nat,
    found: Seq<(u32, usize)>,
    open: Seq<(u32, usize)>,
    seen: Seq<usize>,
    current: Option<usize>,
)
    requires
        searching(net, far, entry, ef, found, open, seen, current),
    ensures
        found.len() >= 1,
        ascending(found),
        ascending(open),
        seen.len() <= net.len(),
        forall|i: int| 0 <= i < open.len() ==> (#[trigger] open[i]).0 == far(open[i].1)
            && seen.contains(open[i].1),
        forall|i: int| 0 <= i < found.len() ==> seen.contains((#[trigger] found[i]).1),
        forall|x: usize| #[trigger] seen.contains(x) ==> reaches(net, entry, x),
{
    reveal(searching);
    assert forall|i: int| 0 <= i < seen.len() implies #[trigger] seen[i] < net.len() by {}
    lemma_distinct_bounded(seen, net.len());
    assert forall|x: usize| #[trigger] seen.contains(x) implies reaches(net, entry, x) by {
        let i = choose|i: int| 0 <= i < seen.len() && seen[i] == x;
        assert(reaches(net, entry, seen[i]));
    }
}

/// Taking up the nearest of what is open.
proof fn lemma_search_turns(
    net: Seq<Seq<usize>>,
    far: spec_fn(usize) -> u32,
    entry: usize,
    ef: nat,
    found: Seq<(u32, usize)>,
    opened: Seq<(u32, usize)>,
    seen: Seq<usize>,
)
    requires
        searching(net, far, entry, ef, found, opened, seen, None),
        opened.len() > 0,
    ensures
        searching(net, far, entry, ef, found, opened.remove(0), seen, Some(opened[0].1)),
{
    reveal(searching);
    let open = opened.remove(0);
    let cur = opened[0].1;
    assert forall|i: int| 0 <= i < open.len() implies #[trigger] open[i] == opened[i + 1] by {}
    assert(ascending(open)) by {
        assert forall|i: int, j: int| 0 <= i < j < open.len() implies (#[trigger] open[i]).0 <= (
        #[trigger] open[j]).0 by {
            assert(opened[i + 1].0 <= opened[j + 1].0);
        }
    }
    assert forall|i: int, x: usize|
        0 <= i < found.len() && Some(cur) != Some((#[trigger] found[i]).1) && !lists(
            open,
            found[i].1,
        ) && net[found[i].1 as int].contains(x) implies #[trigger] seen.contains(x) by {
        if lists(opened, found[i].1) {
            let k = choose|k: int| 0 <= k < opened.len() && (#[trigger] opened[k]).1 == found[i].1;
            assert(k > 0);
            assert(open[k - 1].1 == found[i].1);
        }
    }
}

/// Done with a node once all its neighbours were met.
proof fn lemma_search_leaves(
    net: Seq<Seq<usize>>,
    far: spec_fn(usize) -> u32,
    entry: usize,
    ef: nat,
    found: Seq<(u32, usize)>,
    open: Seq<(u32, usize)>,
    seen: Seq<usize>,
    cur: usize,
)
    requires
        searching(net, far, entry, ef, found, open, seen, Some(cur)),
        forall|j: int|
            0 <= j < net[cur as int].len() ==> seen.contains(#[trigger] net[cur as int][j]),
    ensures
        searching(net, far, entry, ef, found, open, seen, None),
{
    reveal(searching);
    assert forall|i: int, x: usize|
        0 <= i < found.len() && !lists(open, (#[trigger] found[i]).1)
            && net[found[i].1 as int].contains(x) implies #[trigger] seen.contains(x) by {
        if found[i].1 == cur {
            let near = net[cur as int];
            let j = choose|j: int| 0 <= j < near.len() && near[j] == x;
            assert(seen.contains(near[j]));
        }
    }
}

/// Meeting one more node.
proof fn lemma_seen_more(
    nodes: Seq<HnswNode>,
    layer: int,
    before: Seq<usize>,
    x: usize,
)
    requires
        forall|i: int| 0 <= i < before.len() ==> stands(nodes, layer, #[trigger] before[i] as int),
        stands(nodes, layer, x as int),
    ensures
        forall|y: usize| #[trigger] before.push(x).contains(y) == (before.contains(y) || y == x),
        forall|i: int|
            0 <= i < before.push(x).len() ==> stands(
                nodes,
                layer,
                #[trigger] before.push(x)[i] as int,
            ),
{
    let seen = before.push(x);
    assert(seen[before.len() as int] == x);
    assert forall|y: usize| #[trigger] seen.contains(y) == (before.contains(y) || y == x) by {
        if before.contains(y) {
            let j = choose|j: int| 0 <= j < before.len() && before[j] == y;
            assert(seen[j] == y);
        }
        if seen.contains(y) && y != x {
            let j = choose|j: int| 0 <= j < seen.len() && seen[j] == y;
            assert(before[j] == y);
        }
    }
    assert forall|i: int| 0 <= i < seen.len() implies stands(nodes, layer, #[trigger] seen[i] as int) by {
        if i < before.len() {
            assert(before[i] == seen[i]);
        }
    }
}

/// Searches a layer from `entry` for the `ef` nodes nearest to the query. The
/// tracker comes without marks.
#[verifier::rlimit(40)]
pub fn search_layer<M: Metric>(
    nodes: &Vec<HnswNode>,
    metric: &M,
    query: usize,
    entry: usize,
    ef: usize,
    layer: usize,
    tracker: &mut VisitedTracker,
) -> (found: Vec<(u32, usize)>)
    requires
        layer_closed(nodes@, layer as int),
        stands(nodes@, layer as int, entry as int),
        metric.covers(query as int),
        forall|i: int| 0 <= i < nodes@.len() ==> #[trigger] metric.covers(i),
        old(tracker).wf(),
        forall|i: int| !#[trigger] old(tracker).marked(i),
    ensures
        is_found(
            net_of(nodes@, layer as int),
            toward(*metric, query as int),
            entry,
            ef as nat,
            found@,
        ),
        forall|i: int|
            0 <= i < found@.len() ==> stands(nodes@, layer as int, (#[trigger] found@[i]).1 as int),
        final(tracker).wf(),
{
    let ghost net = net_of(nodes@, layer as int);
    let ghost far = toward(*metric, query as int);
    tracker.ensure_capacity(nodes.len());
    let d: u32 = metric.between(entry, query);
    tracker.mark_visited(entry);
    let mut open: Vec<(u32, usize)> = Vec::new();
    open.push((d, entry));
    let mut found: Vec<(u32, usize)> = Vec::new();
    found.push((d, entry));
    let ghost mut seen: Seq<usize> = seq![entry];
    proof {
        assert(open@ =~= seq![(far(entry), entry)]);
        assert(found@ =~= seq![(far(entry), entry)]);
        lemma_search_begins(net, far, entry, ef as nat, found@);
        lemma_underway_begins(net, far, entry, ef as nat);
        assert(seen[0] == entry);
    }
    let ghost n = nodes@.len();
    let ghost mut turns: nat = 0;
    while open.len() > 0
        invariant_except_break
            searching(net, far, entry, ef as nat, found@, open@, seen, None),
            is_underway(
                net,
                far,
                entry,
                ef as nat,
                (Beam { found: found@, open: open@, seen }),
                turns,
            ),
        invariant
            layer_closed(nodes@, layer as int),
            n == nodes@.len(),
            net == net_of(nodes@, layer as int),
            far == toward(*metric, query as int),
            metric.covers(query as int),
            forall|i: int| 0 <= i < nodes@.len() ==> #[trigger] metric.covers(i),
            tracker.wf(),
            tracker.capacity() >= n,
            forall|i: usize| #[trigger] tracker.marked(i as int) == seen.contains(i),
            forall|i: int|
                0 <= i < seen.len() ==> stands(nodes@, layer as int, #[trigger] seen[i] as int),
            seen.len() <= n,
            forall|i: int| 0 <= i < found@.len() ==> seen.contains((#[trigger] found@[i]).1),
        ensures
            is_found(net, far, entry, ef as nat, found@) || (open@.len() == 0 && searching(
                net,
                far,
                entry,
                ef as nat,
                found@,
                open@,
                seen,
                None,
            ) && is_underway(
                net,
                far,
                entry,
                ef as nat,
                (Beam { found: found@, open: open@, seen }),
                turns,
            )),
            tracker.wf(),
            forall|i: int|
                0 <= i < seen.len() ==> stands(nodes@, layer as int, #[trigger] seen[i] as int),
            forall|i: int| 0 <= i < found@.len() ==> seen.contains((#[trigger] found@[i]).1),
        decreases n - seen.len(), open@.len(),
    {
        let ghost opened = open@;
        let ghost seen0 = seen;
        let ghost whole = Beam { found: found@, open: open@, seen };
        proof {
            lemma_search_holds(net, far, entry, ef as nat, found@, open@, seen, None);
        }
        let c = open.remove(0);
        let last: usize = found.len() - 1;
        if c.0 > found[last].0 {
            proof {
                assert forall|i: int| 0 <= i < opened.len() implies (#[trigger] opened[i]).0
                    > found@.last().0 by {
                    if i > 0 {
                        assert(opened[0].0 <= opened[i].0);
                    }
                }
                lemma_underway_ends(net, far, entry, ef as nat, whole, turns);
                lemma_search_ends(net, far, entry, ef as nat, found@, opened, seen);
            }
            break;
        }
        let cur: usize = c.1;
        proof {
            assert(opened[0] == c);
            assert(seen.contains(cur));
            let j = choose|j: int| 0 <= j < seen.len() && seen[j] == cur;
            assert(stands(nodes@, layer as int, seen[j] as int));
            lemma_search_turns(net, far, entry, ef as nat, found@, opened, seen);
            lemma_underway_turns(net, far, entry, ef as nat, whole, turns);
            turns = turns + 1;
        }
        let ghost turning = Beam { found: found@, open: open@, seen };
        let near = &nodes[cur].neighbors[layer];
        assert(near@ == net[cur as int]);
        let mut k: usize = 0;
        assert(near@.take(0) =~= Seq::empty());
        while k < near.len()
            invariant
                layer_closed(nodes@, layer as int),
                n == nodes@.len(),
                net == net_of(nodes@, layer as int),
                far == toward(*metric, query as int),
                metric.covers(query as int),
                forall|i: int| 0 <= i < nodes@.len() ==> #[trigger] metric.covers(i),
                tracker.wf(),
                tracker.capacity() >= n,
                forall|i: usize| #[trigger] tracker.marked(i as int) == seen.contains(i),
                forall|i: int|
                    0 <= i < seen.len() ==> stands(nodes@, layer as int, #[trigger] seen[i] as int),
                searching(net, far, entry, ef as nat, found@, open@, seen, Some(cur)),
                seen.contains(cur),
                stands(nodes@, layer as int, cur as int),
                near@ == net[cur as int],
                near@ == nodes@[cur as int].links(layer as int),
                k <= near@.len(),
                (Beam { found: found@, open: open@, seen }) == meets_all(
                    turning,
                    far,
                    ef as nat,
                    near@.take(k as int),
                ),
                forall|j: int| 0 <= j < k ==> seen.contains(#[trigger] near@[j]),
                seen.len() > seen0.len() || (seen == seen0 && open@.len() < opened.len()),
                seen.len() >= seen0.len(),
                seen.len() <= n,
            decreases near@.len() - k,
        {
            let x: usize = near[k];
            let ghost held = Beam { found: found@, open: open@, seen };
            proof {
                assert(near@.take(k + 1).drop_last() =~= near@.take(k as int));
                lemma_search_holds(net, far, entry, ef as nat, found@, open@, seen, Some(cur));
                assert(net[cur as int].contains(near@[k as int]));
                assert(stands(
                    nodes@,
                    layer as int,
                    nodes@[cur as int].links(layer as int)[k as int] as int,
                ));
                lemma_reaches_on(net, entry, cur, x);
            }
            if !tracker.is_visited(x) {
                tracker.mark_visited(x);
                let d: u32 = metric.between(x, query);
                let last: usize = found.len() - 1;
                let ghost before = (found@, open@, seen);
                if found.len() < ef || d < found[last].0 {
                    let oat: usize = insert_near(&mut open, d, x);
                    let at: usize = insert_near(&mut found, d, x);
                    proof {
                        assert forall|i: int| 0 <= i < open@.len() implies (#[trigger] open@[i]).0
                            == far(open@[i].1) by {
                            if i < oat {
                                assert(open@[i] == before.1[i]);
                            } else if i > oat {
                                assert(open@[i] == before.1[i - 1]);
                            }
                        }
                        lemma_search_accepts(
                            net,
                            far,
                            entry,
                            ef as nat,
                            before,
                            x,
                            at as int,
                            open@,
                            cur,
                        );
                    }
                    if found.len() > ef {
                        let ghost grown = found@;
                        found.pop();
                        assert(found@ =~= grown.drop_last());
                    }
                } else {
                    proof {
                        lemma_search_rejects(
                            net,
                            far,
                            entry,
                            ef as nat,
                            found@,
                            open@,
                            seen,
                            x,
                            cur,
                        );
                    }
                }
                proof {
                    lemma_seen_more(nodes@, layer as int, seen, x);
                    seen = seen.push(x);
                    lemma_search_holds(net, far, entry, ef as nat, found@, open@, seen, Some(cur));
                }
            }
            assert((Beam { found: found@, open: open@, seen }) == meets(held, far, ef as nat, x));
            k += 1;
        }
        proof {
            assert(near@.take(k as int) =~= near@);
            assert((Beam { found: found@, open: open@, seen }) == turned(
                whole,
                net,
                far,
                ef as nat,
            ));
            lemma_search_leaves(net, far, entry, ef as nat, found@, open@, seen, cur);
            lemma_search_holds(net, far, entry, ef as nat, found@, open@, seen, None);
        }
    }
    proof {
        if !is_found(net, far, entry, ef as nat, found@) {
            lemma_underway_ends(
                net,
                far,
                entry,
                ef as nat,
                Beam { found: found@, open: open@, seen },
                turns,
            );
            lemma_search_ends(net, far, entry, ef as nat, found@, open@, seen);
        }
        assert forall|i: int| 0 <= i < found@.len() implies stands(
            nodes@,
            layer as int,
            (#[trigger] found@[i]).1 as int,
        ) by {
            assert(seen.contains(found@[i].1));
            let j = choose|j: int| 0 <= j < seen.len() && seen[j] == found@[i].1;
            assert(stands(nodes@, layer as int, seen[j] as int));
        }
    }
    found
}

/// A search that did not fill its list has found everything that links lead to.
pub proof fn unfilled_search_is_complete(
    net: Seq<Seq<usize>>,
    far: spec_fn(usize) -> u32,
    entry: usize,
    ef: nat,
    found: Seq<(u32, usize)>,
    x: usize,
)
    requires
        is_found(net, far, entry, ef, found),
        found.len() < ef,
        reaches(net, entry, x),
    ensures
        lists(found, x),
{
    let path = choose|path: Seq<usize>| #[trigger]
        leads(net, path) && path.first() == entry && path.last() == x;
    lemma_path_is_found(net, far, entry, ef, found, path, path.len() - 1);
}

proof fn lemma_path_is_found(
    net: Seq<Seq<usize>>,
    far: spec_fn(usize) -> u32,
    entry: usize,
    ef: nat,
    found: Seq<(u32, usize)>,
    path: Seq<usize>,
    k: int,
)
    requires
        is_found(net, far, entry, ef, found),
        found.len() < ef,
        leads(net, path),
        path.first() == entry,
        0 <= k < path.len(),
    ensures
        lists(found, path[k]),
    decreases k,
{
    if k > 0 {
        lemma_path_is_found(net, far, entry, ef, found, path, k - 1);
        let i = choose|i: int| 0 <= i < found.len() && (#[trigger] found[i]).1 == path[k - 1];
        assert(net[found[i].1 as int].contains(path[k]));
    }
}

/// A search has one answer.
pub proof fn search_has_one_answer(
    net: Seq<Seq<usize>>,
    far: spec_fn(usize) -> u32,
    entry: usize,
    ef: nat,
    found: Seq<(u32, usize)>,
    other: Seq<(u32, usize)>,
)
    requires
        is_found(net, far, entry, ef, found),
        is_found(net, far, entry, ef, other),
    ensures
        found == other,
{
    reveal(is_expanded);
    let s = choose|turns: nat|
        {
            &&& is_over(#[trigger] after_turns(net, far, entry, ef, turns))
            &&& after_turns(net, far, entry, ef, turns).found == found
            &&& forall|t: nat| t < turns ==> !is_over(#[trigger] after_turns(net, far, entry, ef, t))
        };
    let u = choose|turns: nat|
        {
            &&& is_over(#[trigger] after_turns(net, far, entry, ef, turns))
            &&& after_turns(net, far, entry, ef, turns).found == other
            &&& forall|t: nat| t < turns ==> !is_over(#[trigger] after_turns(net, far, entry, ef, t))
        };
    assert(s == u);
}

/// What comes first lies no farther than where the search began.
pub proof fn search_does_not_retreat(
    net: Seq<Seq<usize>>,
    far: spec_fn(usize) -> u32,
    entry: usize,
    ef: nat,
    found: Seq<(u32, usize)>,
)
    requires
        is_found(net, far, entry, ef, found),
    ensures
        found[0].0 <= far(entry),
{
    if lists(found, entry) {
        let i = choose|i: int| 0 <= i < found.len() && (#[trigger] found[i]).1 == entry;
        if i > 0 {
            assert(found[0].0 <= found[i].0);
        }
    } else {
        if found.len() > 1 {
            assert(found[0].0 <= found[found.len() - 1].0);
        }
    }
}

// ---------------------------------------------------------------------------
// Greedy descent
// ---------------------------------------------------------------------------

/// Whether none of the nodes is nearer than this.
pub open spec fn none_nearer(near: Seq<usize>, far: spec_fn(usize) -> u32, dist: u32) -> bool {
    forall|x: usize| #[trigger] near.contains(x) ==> far(x) >= dist
}

/// Whether a node is the nearest neighbour of another, and nearer than that.
pub open spec fn steps_down(
    net: Seq<Seq<usize>>,
    far: spec_fn(usize) -> u32,
    a: usize,
    b: usize,
) -> bool {
    &&& a < net.len()
    &&& net[a as int].contains(b)
    &&& far(b) < far(a)
    &&& none_nearer(net[a as int], far, far(b))
}

/// Whether the path goes to the nearest neighbour again and again.
pub open spec fn goes_down(
    net: Seq<Seq<usize>>,
    far: spec_fn(usize) -> u32,
    path: Seq<usize>,
) -> bool {
    &&& path.len() > 0
    &&& forall|i: int, j: int|
        0 <= i && j == i + 1 && j < path.len() ==> #[trigger] steps_down(
            net,
            far,
            path[i],
            path[j],
        )
}

/// Whether going to the nearest neighbour again and again leads from one node to another.
#[verifier::opaque]
pub open spec fn descends_to(
    net: Seq<Seq<usize>>,
    far: spec_fn(usize) -> u32,
    from: usize,
    to: usize,
) -> bool {
    exists|path: Seq<usize>| #[trigger]
        goes_down(net, far, path) && path.first() == from && path.last() == to
}

proof fn lemma_descends_self(net: Seq<Seq<usize>>, far: spec_fn(usize) -> u32, a: usize)
    ensures
        descends_to(net, far, a, a),
{
    reveal(descends_to);
    let path = seq![a];
    assert(goes_down(net, far, path) && path.first() == a && path.last() == a);
}

proof fn lemma_descends_on(
    net: Seq<Seq<usize>>,
    far: spec_fn(usize) -> u32,
    a: usize,
    b: usize,
    c: usize,
)
    requires
        descends_to(net, far, a, b),
        steps_down(net, far, b, c),
    ensures
        descends_to(net, far, a, c),
{
    reveal(descends_to);
    let path = choose|path: Seq<usize>| #[trigger]
        goes_down(net, far, path) && path.first() == a && path.last() == b;
    let longer = path.push(c);
    assert forall|i: int, j: int| 0 <= i && j == i + 1 && j < longer.len() implies #[trigger] steps_down(
        net,
        far,
        longer[i],
        longer[j],
    ) by {
        if j < path.len() {
            assert(steps_down(net, far, path[i], path[j]));
        }
    }
    assert(goes_down(net, far, longer) && longer.first() == a && longer.last() == c);
}

/// Going to the nearest neighbour again and again leads to `to`, which lies no farther
/// than `from`, and no neighbour of it is nearer.
pub open spec fn settled(
    net: Seq<Seq<usize>>,
    far: spec_fn(usize) -> u32,
    from: usize,
    to: usize,
) -> bool {
    &&& reaches(net, from, to)
    &&& descends_to(net, far, from, to)
    &&& far(to) <= far(from)
    &&& none_nearer(net[to as int], far, far(to))
}

/// The nearest of the neighbours, if it is nearer than `dist`.
fn nearer_neighbor<M: Metric>(metric: &M, query: usize, near: &Vec<usize>, dist: u32) -> (r: Option<
    (usize, u32),
>)
    requires
        metric.covers(query as int),
        forall|j: int| 0 <= j < near@.len() ==> metric.covers(#[trigger] near@[j] as int),
    ensures
        match r {
            Some((x, d)) => {
                &&& near@.contains(x)
                &&& d == toward(*metric, query as int)(x)
                &&& d < dist
                &&& forall|y: usize| #[trigger]
                    near@.contains(y) ==> toward(*metric, query as int)(y) >= d
            },
            None => forall|x: usize| #[trigger]
                near@.contains(x) ==> toward(*metric, query as int)(x) >= dist,
        },
{
    let ghost far = toward(*metric, query as int);
    let mut best: Option<(usize, u32)> = None;
    let mut limit: u32 = dist;
    let mut k: usize = 0;
    while k < near.len()
        invariant
            k <= near@.len(),
            far == toward(*metric, query as int),
            metric.covers(query as int),
            forall|j: int| 0 <= j < near@.len() ==> metric.covers(#[trigger] near@[j] as int),
            limit <= dist,
            match best {
                Some((x, d)) => near@.contains(x) && d == far(x) && d == limit && d < dist
                    && forall|j: int| 0 <= j < k ==> far(#[trigger] near@[j]) >= d,
                None => limit == dist && forall|j: int|
                    0 <= j < k ==> far(#[trigger] near@[j]) >= dist,
            },
        decreases near@.len() - k,
    {
        let x: usize = near[k];
        let d: u32 = metric.between(x, query);
        assert(near@.contains(near@[k as int]));
        if d < limit {
            limit = d;
            best = Some((x, d));
        }
        k += 1;
    }
    best
}

/// Moves from neighbour to nearer neighbour until none is nearer.
pub fn descend<M: Metric>(
    nodes: &Vec<HnswNode>,
    metric: &M,
    query: usize,
    from: usize,
    layer: usize,
) -> (to: usize)
    requires
        layer_closed(nodes@, layer as int),
        stands(nodes@, layer as int, from as int),
        metric.covers(query as int),
        forall|i: int| 0 <= i < nodes@.len() ==> #[trigger] metric.covers(i),
    ensures
        settled(net_of(nodes@, layer as int), toward(*metric, query as int), from, to),
        stands(nodes@, layer as int, to as int),
{
    let ghost net = net_of(nodes@, layer as int);
    let ghost far = toward(*metric, query as int);
    let mut cur: usize = from;
    let mut dist: u32 = metric.between(from, query);
    proof {
        lemma_reaches_self(net, from);
        lemma_descends_self(net, far, from);
    }
    loop
        invariant
            layer_closed(nodes@, layer as int),
            net == net_of(nodes@, layer as int),
            far == toward(*metric, query as int),
            metric.covers(query as int),
            forall|i: int| 0 <= i < nodes@.len() ==> #[trigger] metric.covers(i),
            stands(nodes@, layer as int, cur as int),
            dist == far(cur),
            dist <= far(from),
            reaches(net, from, cur),
            descends_to(net, far, from, cur),
        ensures
            stands(nodes@, layer as int, cur as int),
            settled(net, far, from, cur),
        decreases dist,
    {
        let near = &nodes[cur].neighbors[layer];
        assert(near@ == net[cur as int]);
        assert forall|j: int| 0 <= j < near@.len() implies metric.covers(
            #[trigger] near@[j] as int,
        ) && stands(nodes@, layer as int, near@[j] as int) by {
            assert(stands(nodes@, layer as int, nodes@[cur as int].links(layer as int)[j] as int));
        }
        match nearer_neighbor(metric, query, near, dist) {
            Some((x, d)) => {
                proof {
                    lemma_reaches_on(net, from, cur, x);
                    lemma_descends_on(net, far, from, cur, x);
                    let j = choose|j: int| 0 <= j < near@.len() && near@[j] == x;
                    assert(stands(nodes@, layer as int, near@[j] as int));
                }
                cur = x;
                dist = d;
            },
            None => {
                break;
            },
        }
    }
    cur
}

} // verus!
