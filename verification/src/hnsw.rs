//! A hierarchical navigable small world: layered neighbour lists that lead a
//! search towards the vectors nearest to a query.

use crate::beam::{
    all_differ, descend, is_found, layer_closed, lists, net_of, reaches, search_layer, settled,
    stands, toward, unfilled_search_is_complete, HnswNode, Metric, VisitedTracker,
};
use crate::sorting::{lemma_sorted_members, sort_by, sorted_by, sorted_keeps_items};
use vstd::prelude::*;

verus! {

// ---------------------------------------------------------------------------
// Random numbers
// ---------------------------------------------------------------------------

/// The state that stands in for a seed of zero.
pub const ZERO_SEED: u64 = 0x853c_49e6_748f_ea9b;

/// The factor that scrambles a state into a number.
pub const SCRAMBLER: u64 = 0x2545_f491_4f6c_dd1d;

/// One round of shifts and exclusive ors.
pub open spec fn xorshift(state: u64) -> u64 {
    let a = state ^ (state >> 12);
    let b = a ^ (a << 25);
    b ^ (b >> 27)
}

/// The number that a state is scrambled into.
pub open spec fn scrambled(state: u64) -> u64 {
    ((state * SCRAMBLER) % 0x1_0000_0000_0000_0000) as u64
}

/// A fast deterministic generator of numbers that look random.
#[derive(Debug, Clone, Copy)]
pub struct FastRng {
    state: u64,
}

impl FastRng {
    /// The state that the next number comes from.
    pub closed spec fn state(&self) -> u64 {
        self.state
    }

    /// Starts from a seed; a state of zero would stay zero for ever.
    pub fn new(seed: u64) -> (r: FastRng)
        ensures
            r.state() == if seed == 0 {
                ZERO_SEED
            } else {
                seed
            },
            r.state() != 0,
    {
        FastRng {
            state: if seed == 0 {
                ZERO_SEED
            } else {
                seed
            },
        }
    }

    /// The next number.
    pub fn next_u64(&mut self) -> (r: u64)
        ensures
            final(self).state() == xorshift(old(self).state()),
            r == scrambled(xorshift(old(self).state())),
    {
        let a: u64 = self.state ^ (self.state >> 12);
        let b: u64 = a ^ (a << 25);
        let c: u64 = b ^ (b >> 27);
        self.state = c;
        c.wrapping_mul(SCRAMBLER)
    }

    /// The top 53 bits of the next number: its fraction of the whole range in
    /// units of two to the minus 53.
    pub fn next_fraction(&mut self) -> (r: u64)
        ensures
            final(self).state() == xorshift(old(self).state()),
            r == scrambled(xorshift(old(self).state())) >> 11,
            r < 0x20_0000_0000_0000,
    {
        let n: u64 = self.next_u64();
        assert(n >> 11 < 0x20_0000_0000_0000) by (bit_vector);
        n >> 11
    }
}

/// The generator never falls into the state zero, which it could not leave.
pub proof fn generator_keeps_moving(state: u64)
    requires
        state != 0,
    ensures
        xorshift(state) != 0,
{
    let a = state ^ (state >> 12);
    let b = a ^ (a << 25);
    assert(state != 0 ==> (state ^ (state >> 12)) != 0) by (bit_vector);
    assert(a != 0 ==> (a ^ (a << 25)) != 0) by (bit_vector);
    assert(b != 0 ==> (b ^ (b >> 27)) != 0) by (bit_vector);
}

// ---------------------------------------------------------------------------
// The index
// ---------------------------------------------------------------------------

/// How an index is built and searched.
#[derive(Debug, Clone, Copy)]
pub struct HnswConfig {
    /// The most neighbours of a node above the ground layer.
    pub m: usize,
    /// The most neighbours of a node in the ground layer.
    pub m0: usize,
    /// How many candidates an insertion looks for in each layer.
    pub ef_construction: usize,
    /// How many candidates a search looks for.
    pub ef_search: usize,
    /// The most layers.
    pub max_layers: usize,
}

impl Default for HnswConfig {
    fn default() -> (r: HnswConfig)
        ensures
            r.m == 16,
            r.m0 == 32,
            r.ef_construction == 64,
            r.ef_search == 64,
            r.max_layers == 16,
    {
        HnswConfig { m: 16, m0: 32, ef_construction: 64, ef_search: 64, max_layers: 16 }
    }
}

impl HnswConfig {
    /// The most neighbours of a node in a layer.
    pub open spec fn allowance(self, layer: int) -> nat {
        if layer == 0 {
            self.m0 as nat
        } else {
            self.m as nat
        }
    }

    /// The most neighbours of a node in a layer.
    pub fn width(&self, layer: usize) -> (r: usize)
        ensures
            r == self.allowance(layer as int),
    {
        if layer == 0 {
            self.m0
        } else {
            self.m
        }
    }

    /// A drawn level, held below the number of layers.
    pub fn level_of(&self, drawn: usize) -> (r: usize)
        requires
            self.max_layers >= 1,
        ensures
            r == if drawn < self.max_layers {
                drawn as int
            } else {
                self.max_layers - 1
            },
    {
        if drawn < self.max_layers {
            drawn
        } else {
            self.max_layers - 1
        }
    }
}

/// The neighbour lists of a node are sound: short enough, without the node itself
/// and without repetition.
pub open spec fn lists_sound(nodes: Seq<HnswNode>, config: HnswConfig) -> bool {
    forall|i: int, layer: int|
        #![trigger nodes[i].links(layer)]
        0 <= i < nodes.len() ==> {
            let near = nodes[i].links(layer);
            &&& near.len() <= config.allowance(layer)
            &&& near.no_duplicates()
            &&& forall|k: int| 0 <= k < near.len() ==> #[trigger] near[k] != i
        }
}

/// An index of numbered vectors.
pub struct HnswIndex {
    pub config: HnswConfig,
    pub nodes: Vec<HnswNode>,
    pub entry_point: Option<usize>,
    pub max_level: usize,
}

impl HnswIndex {
    /// Every node has lists for its layers, neighbours in a layer stand in it, no
    /// list is longer than the configuration allows, and searches enter at a node of
    /// the highest level.
    pub open spec fn wf(&self) -> bool {
        &&& forall|i: int|
            0 <= i < self.nodes@.len() ==> (#[trigger] self.nodes@[i]).neighbors@.len()
                == self.nodes@[i].level + 1 && self.nodes@[i].level <= self.max_level
        &&& forall|layer: int| #[trigger] layer_closed(self.nodes@, layer)
        &&& lists_sound(self.nodes@, self.config)
        &&& match self.entry_point {
            Some(e) => e < self.nodes@.len() && self.nodes@[e as int].level == self.max_level,
            None => self.nodes@.len() == 0,
        }
    }

    /// An index without vectors.
    pub fn new(config: HnswConfig) -> (r: HnswIndex)
        ensures
            r.wf(),
            r.config == config,
            r.nodes@.len() == 0,
            r.entry_point == None::<usize>,
            r.max_level == 0,
    {
        HnswIndex { config, nodes: Vec::new(), entry_point: None, max_level: 0 }
    }

    /// An index with the usual configuration.
    pub fn with_default_config() -> (r: HnswIndex)
        ensures
            r.wf(),
            r.nodes@.len() == 0,
            r.config.m == 16,
            r.config.m0 == 32,
            r.config.ef_construction == 64,
            r.config.ef_search == 64,
            r.config.max_layers == 16,
            r.entry_point == None::<usize>,
            r.max_level == 0,
    {
        HnswIndex::new(HnswConfig::default())
    }

    /// How many vectors are stored.
    pub fn len(&self) -> (r: usize)
        ensures
            r == self.nodes@.len(),
    {
        self.nodes.len()
    }

    /// Whether no vector is stored.
    pub fn is_empty(&self) -> (r: bool)
        ensures
            r == (self.nodes@.len() == 0),
    {
        self.nodes.len() == 0
    }

    /// The configuration.
    pub fn config(&self) -> (r: &HnswConfig)
        ensures
            *r == self.config,
    {
        &self.config
    }
}

// ---------------------------------------------------------------------------
// Neighbour lists
// ---------------------------------------------------------------------------

/// The nodes of the first `m` hits.
pub open spec fn nearest(found: Seq<(u32, usize)>, m: nat) -> Seq<usize> {
    Seq::new(
        if found.len() < m {
            found.len()
        } else {
            m
        },
        |k: int| found[k].1,
    )
}

/// The nodes with their distances from `node`.
pub open spec fn scored<M: Metric>(metric: M, node: int, near: Seq<usize>) -> Seq<(u32, usize)> {
    Seq::new(near.len(), |k: int| (metric.gap(node, near[k] as int), near[k]))
}

/// The nearer of two hits.
pub open spec fn nearer() -> spec_fn((u32, usize), (u32, usize)) -> bool {
    |a: (u32, usize), b: (u32, usize)| a.0 < b.0
}

/// A neighbour list cut down to the `m` nearest, where it is longer.
pub open spec fn trimmed<M: Metric>(
    metric: M,
    node: int,
    near: Seq<usize>,
    m: nat,
) -> Seq<usize> {
    if near.len() > m {
        nearest(sorted_by(scored(metric, node, near), nearer()), m)
    } else {
        near
    }
}

/// The nodes of the first `m_max` hits.
pub fn select_neighbors(candidates: &Vec<(u32, usize)>, m_max: usize) -> (r: Vec<usize>)
    ensures
        r@ == nearest(candidates@, m_max as nat),
{
    let mut r: Vec<usize> = Vec::new();
    let mut k: usize = 0;
    while k < candidates.len() && k < m_max
        invariant
            k <= candidates@.len(),
            k <= m_max,
            r@.len() == k,
            forall|j: int| 0 <= j < k ==> #[trigger] r@[j] == candidates@[j].1,
        decreases candidates@.len() - k,
    {
        r.push(candidates[k].1);
        k += 1;
    }
    assert(r@ =~= nearest(candidates@, m_max as nat));
    r
}

fn hit_less(a: &(u32, usize), b: &(u32, usize)) -> (r: bool)
    ensures
        r == (a.0 < b.0),
{
    a.0 < b.0
}

/// Cuts a neighbour list of `node` down to the `m_max` nearest.
pub fn shrink_neighbors<M: Metric>(
    metric: &M,
    node: usize,
    near: Vec<usize>,
    m_max: usize,
) -> (r: Vec<usize>)
    requires
        metric.covers(node as int),
        forall|k: int| 0 <= k < near@.len() ==> metric.covers(#[trigger] near@[k] as int),
    ensures
        r@ == trimmed(*metric, node as int, near@, m_max as nat),
{
    if near.len() <= m_max {
        return near;
    }
    let ghost want = scored(*metric, node as int, near@);
    let mut hits: Vec<(u32, usize)> = Vec::new();
    let mut k: usize = 0;
    while k < near.len()
        invariant
            k <= near@.len(),
            metric.covers(node as int),
            forall|k: int| 0 <= k < near@.len() ==> metric.covers(#[trigger] near@[k] as int),
            want == scored(*metric, node as int, near@),
            hits@ == want.take(k as int),
        decreases near@.len() - k,
    {
        hits.push((metric.between(node, near[k]), near[k]));
        k += 1;
        assert(hits@ =~= want.take(k as int));
    }
    assert(want.take(k as int) =~= want);
    let sorted = sort_by(hits, hit_less, Ghost(nearer()));
    select_neighbors(&sorted, m_max)
}

/// A trimmed list holds only what the list held, each once, and no more than `m`.
proof fn lemma_trimmed<M: Metric>(metric: M, node: int, near: Seq<usize>, m: nat)
    requires
        near.no_duplicates(),
    ensures
        trimmed(metric, node, near, m).len() <= m,
        trimmed(metric, node, near, m).no_duplicates(),
        forall|k: int|
            0 <= k < trimmed(metric, node, near, m).len() ==> near.contains(
                #[trigger] trimmed(metric, node, near, m)[k],
            ),
{
    let r = trimmed(metric, node, near, m);
    if near.len() > m {
        let hits = scored(metric, node, near);
        let sorted = sorted_by(hits, nearer());
        lemma_sorted_members(hits, nearer());
        sorted_keeps_items(hits, nearer());
        assert(hits.no_duplicates()) by {
            assert forall|i: int, j: int|
                0 <= i < hits.len() && 0 <= j < hits.len() && i != j implies hits[i] != hits[j] by {
                assert(near[i] != near[j]);
            }
        }
        hits.lemma_multiset_has_no_duplicates();
        sorted.lemma_multiset_has_no_duplicates_conv();
        assert forall|k: int| 0 <= k < sorted.len() implies (#[trigger] sorted[k]).0 == metric.gap(
            node,
            sorted[k].1 as int,
        ) && near.contains(sorted[k].1) by {
            assert(hits.contains(sorted[k]));
            let j = choose|j: int| 0 <= j < hits.len() && hits[j] == sorted[k];
            assert(near[j] == sorted[k].1);
        }
        assert forall|i: int, j: int|
            0 <= i < r.len() && 0 <= j < r.len() && i != j implies r[i] != r[j] by {
            if r[i] == r[j] {
                assert(sorted[i] == sorted[j]);
            }
        }
    } else {
        assert forall|k: int| 0 <= k < r.len() implies near.contains(#[trigger] r[k]) by {
            assert(near[k] == r[k]);
        }
    }
}

// ---------------------------------------------------------------------------
// Insertion
// ---------------------------------------------------------------------------

/// Greedy descents from layer `high` down to layer `low`, each from where the one
/// above it ended, lead from one node to another.
pub open spec fn descends(
    nodes: Seq<HnswNode>,
    far: spec_fn(usize) -> u32,
    from: usize,
    high: int,
    low: int,
    to: usize,
) -> bool
    decreases high - low + 1,
{
    if high < low {
        from == to
    } else {
        exists|mid: usize| #[trigger]
            settled(net_of(nodes, high), far, from, mid) && descends(
                nodes,
                far,
                mid,
                high - 1,
                low,
                to,
            )
    }
}

/// The searches by which a new node finds its neighbours: in the highest layer that
/// it shares with the index from where the descent ends, in each layer below from
/// the nearest hit of the layer above.
pub open spec fn surveyed(
    nodes: Seq<HnswNode>,
    far: spec_fn(usize) -> u32,
    start: usize,
    ef: nat,
    top: int,
    found: Map<int, Seq<(u32, usize)>>,
) -> bool {
    forall|l: int|
        0 <= l <= top ==> is_found(
            net_of(nodes, l),
            far,
            if l == top {
                start
            } else {
                found[l + 1][0].1
            },
            ef,
            #[trigger] found[l],
        )
}

/// The nodes of one layer after a new node has joined it: whoever it chose links
/// back to it.
pub open spec fn linked_back<M: Metric>(
    metric: M,
    near: Seq<usize>,
    i: int,
    id: usize,
    chosen: Seq<usize>,
    m: nat,
) -> Seq<usize> {
    if chosen.contains(i as usize) {
        trimmed(metric, i, near.push(id), m)
    } else {
        near
    }
}

impl HnswIndex {
    /// The highest layer that a node of this level shares with the index.
    pub open spec fn shared_top(&self, level: int) -> int {
        if level < self.max_level {
            level
        } else {
            self.max_level as int
        }
    }

    /// What an insertion found in each layer on its way down.
    pub open spec fn is_survey<M: Metric>(
        &self,
        metric: M,
        level: int,
        found: Map<int, Seq<(u32, usize)>>,
    ) -> bool {
        let far = toward(metric, self.nodes@.len() as int);
        match self.entry_point {
            Some(entry) => exists|start: usize| #[trigger]
                descends(self.nodes@, far, entry, self.max_level as int, level + 1, start)
                    && surveyed(
                    self.nodes@,
                    far,
                    start,
                    self.config.ef_construction as nat,
                    self.shared_top(level),
                    found,
                ),
            None => true,
        }
    }

    /// Whether a layer takes part in an insertion.
    pub open spec fn joins(&self, level: int, layer: int) -> bool {
        self.entry_point is Some && 0 <= layer <= self.shared_top(level)
    }

    /// Whom the new node chooses in a layer.
    pub open spec fn choices(
        &self,
        level: int,
        found: Map<int, Seq<(u32, usize)>>,
        layer: int,
    ) -> Seq<usize> {
        if self.joins(level, layer) {
            nearest(found[layer], self.config.allowance(layer))
        } else {
            Seq::empty()
        }
    }

    /// The index with a new node: it has its choices as neighbours in every layer, they
    /// link back to it, and a node above all others becomes the entry.
    pub open spec fn grown<M: Metric>(
        &self,
        metric: M,
        level: int,
        found: Map<int, Seq<(u32, usize)>>,
        after: HnswIndex,
    ) -> bool {
        let id = self.nodes@.len();
        &&& after.config == self.config
        &&& after.nodes@.len() == id + 1
        &&& after.nodes@[id as int].level == level
        &&& after.nodes@[id as int].neighbors@.len() == level + 1
        &&& forall|l: int|
            after.nodes@[id as int].links(l) == #[trigger] self.choices(level, found, l)
        &&& forall|i: int|
            0 <= i < id ==> (#[trigger] after.nodes@[i]).level == self.nodes@[i].level
                && after.nodes@[i].neighbors@.len() == self.nodes@[i].neighbors@.len()
        &&& forall|i: int, l: int|
            0 <= i < id ==> #[trigger] after.nodes@[i].links(l) == linked_back(
                metric,
                self.nodes@[i].links(l),
                i,
                id as usize,
                self.choices(level, found, l),
                self.config.allowance(l),
            )
        &&& after.entry_point == if self.entry_point is None || level > self.max_level {
            Some(id as usize)
        } else {
            self.entry_point
        }
        &&& after.max_level == if self.entry_point is None || level > self.max_level {
            level
        } else {
            self.max_level as int
        }
    }
}

/// Replaces the neighbours of a node in a layer.
fn relink(nodes: &mut Vec<HnswNode>, node: usize, layer: usize, near: Vec<usize>)
    requires
        stands(old(nodes)@, layer as int, node as int),
    ensures
        final(nodes)@.len() == old(nodes)@.len(),
        forall|i: int|
            0 <= i < old(nodes)@.len() ==> (#[trigger] final(nodes)@[i]).level == old(
                nodes,
            )@[i].level && final(nodes)@[i].neighbors@.len() == old(nodes)@[i].neighbors@.len(),
        forall|i: int, l: int|
            0 <= i < old(nodes)@.len() ==> #[trigger] final(nodes)@[i].links(l) == if i == node && l
                == layer {
                near@
            } else {
                old(nodes)@[i].links(l)
            },
{
    nodes[node].neighbors[layer] = near;
}

/// Lets every chosen node link back to the new one in a layer.
fn link_all<M: Metric>(
    nodes: &mut Vec<HnswNode>,
    metric: &M,
    id: usize,
    chosen: &Vec<usize>,
    layer: usize,
    m_max: usize,
)
    requires
        chosen@.no_duplicates(),
        forall|k: int|
            0 <= k < chosen@.len() ==> stands(old(nodes)@, layer as int, #[trigger] chosen@[k] as int),
        forall|i: int, k: int|
            0 <= i < old(nodes)@.len() && 0 <= k < old(nodes)@[i].links(layer as int).len()
                ==> #[trigger] old(nodes)@[i].links(layer as int)[k] < id,
        metric.covers(id as int),
        forall|i: int| 0 <= i < id ==> #[trigger] metric.covers(i),
        old(nodes)@.len() == id,
    ensures
        final(nodes)@.len() == old(nodes)@.len(),
        forall|i: int|
            0 <= i < old(nodes)@.len() ==> (#[trigger] final(nodes)@[i]).level == old(
                nodes,
            )@[i].level && final(nodes)@[i].neighbors@.len() == old(nodes)@[i].neighbors@.len(),
        forall|i: int, l: int|
            0 <= i < old(nodes)@.len() ==> #[trigger] final(nodes)@[i].links(l) == if l == layer {
                linked_back(*metric, old(nodes)@[i].links(l), i, id, chosen@, m_max as nat)
            } else {
                old(nodes)@[i].links(l)
            },
{
    let ghost before = nodes@;
    let mut k: usize = 0;
    while k < chosen.len()
        invariant
            k <= chosen@.len(),
            chosen@.no_duplicates(),
            forall|k: int|
                0 <= k < chosen@.len() ==> stands(before, layer as int, #[trigger] chosen@[k] as int),
            forall|i: int, k: int|
                0 <= i < before.len() && 0 <= k < before[i].links(layer as int).len()
                    ==> #[trigger] before[i].links(layer as int)[k] < id,
            metric.covers(id as int),
            forall|i: int| 0 <= i < id ==> #[trigger] metric.covers(i),
            before.len() == id,
            nodes@.len() == id,
            forall|i: int|
                0 <= i < id ==> (#[trigger] nodes@[i]).level == before[i].level
                    && nodes@[i].neighbors@.len() == before[i].neighbors@.len(),
            forall|i: int, l: int|
                0 <= i < id ==> #[trigger] nodes@[i].links(l) == if l == layer {
                    linked_back(
                        *metric,
                        before[i].links(l),
                        i,
                        id,
                        chosen@.take(k as int),
                        m_max as nat,
                    )
                } else {
                    before[i].links(l)
                },
        decreases chosen@.len() - k,
    {
        let ghost now = nodes@;
        let node: usize = chosen[k];
        assert(stands(before, layer as int, chosen@[k as int] as int));
        assert(!chosen@.take(k as int).contains(node)) by {
            if chosen@.take(k as int).contains(node) {
                let j = choose|j: int| 0 <= j < k && chosen@.take(k as int)[j] == node;
                assert(chosen@[j] == chosen@[k as int]);
            }
        }
        assert(now[node as int].links(layer as int) == before[node as int].links(layer as int));
        let mut near: Vec<usize> = clone_nodes(&nodes[node].neighbors[layer]);
        near.push(id);
        proof {
            let old_near = before[node as int].links(layer as int);
            assert(near@ == old_near.push(id));
            assert forall|j: int| 0 <= j < near@.len() implies metric.covers(
                #[trigger] near@[j] as int,
            ) by {
                if j < old_near.len() {
                    assert(before[node as int].links(layer as int)[j] < id);
                }
            }
        }
        let cut = shrink_neighbors(metric, node, near, m_max);
        relink(nodes, node, layer, cut);
        proof {
            let next = chosen@.take(k + 1);
            assert(next.last() == node);
            assert forall|i: int, l: int| 0 <= i < id implies #[trigger] nodes@[i].links(l) == if l
                == layer {
                linked_back(*metric, before[i].links(l), i, id, next, m_max as nat)
            } else {
                before[i].links(l)
            } by {
                let same = now[i].links(l);
                if l == layer && i != node {
                    if chosen@.take(k as int).contains(i as usize) {
                        let j = choose|j: int|
                            0 <= j < k && chosen@.take(k as int)[j] == i as usize;
                        assert(next[j] == i as usize);
                    }
                    if next.contains(i as usize) {
                        let j = choose|j: int| 0 <= j < k + 1 && next[j] == i as usize;
                        assert(j < k);
                        assert(chosen@.take(k as int)[j] == i as usize);
                    }
                } else if l == layer {
                    assert(next[k as int] == i as usize);
                }
            }
        }
        k += 1;
    }
    assert(chosen@.take(k as int) =~= chosen@);
}

fn clone_nodes(near: &Vec<usize>) -> (r: Vec<usize>)
    ensures
        r@ == near@,
{
    let mut r: Vec<usize> = Vec::new();
    let mut k: usize = 0;
    while k < near.len()
        invariant
            k <= near@.len(),
            r@ == near@.take(k as int),
        decreases near@.len() - k,
    {
        r.push(near[k]);
        k += 1;
        assert(r@ =~= near@.take(k as int));
    }
    assert(near@.take(k as int) =~= near@);
    r
}

proof fn lemma_nearest(found: Seq<(u32, usize)>, m: nat)
    requires
        all_differ(found),
    ensures
        nearest(found, m).no_duplicates(),
        nearest(found, m).len() <= m,
        forall|k: int| 0 <= k < nearest(found, m).len() ==> #[trigger] nearest(found, m)[k] == found[k].1,
{
    let r = nearest(found, m);
    assert forall|i: int, j: int| 0 <= i < r.len() && 0 <= j < r.len() && i != j implies r[i]
        != r[j] by {
        if i < j {
            assert(found[i].1 != found[j].1);
        } else {
            assert(found[j].1 != found[i].1);
        }
    }
}

proof fn lemma_descends_on(
    nodes: Seq<HnswNode>,
    far: spec_fn(usize) -> u32,
    from: usize,
    high: int,
    low: int,
    mid: usize,
    to: usize,
)
    requires
        low <= high + 1,
        descends(nodes, far, from, high, low, mid),
        settled(net_of(nodes, low - 1), far, mid, to),
    ensures
        descends(nodes, far, from, high, low - 1, to),
    decreases high - low + 1,
{
    if high < low {
        assert(settled(net_of(nodes, high), far, from, to) && descends(
            nodes,
            far,
            to,
            high - 1,
            low - 1,
            to,
        ));
    } else {
        let next = choose|next: usize| #[trigger]
            settled(net_of(nodes, high), far, from, next) && descends(
                nodes,
                far,
                next,
                high - 1,
                low,
                mid,
            );
        lemma_descends_on(nodes, far, next, high - 1, low, mid, to);
        assert(settled(net_of(nodes, high), far, from, next) && descends(
            nodes,
            far,
            next,
            high - 1,
            low - 1,
            to,
        ));
    }
}

/// Growing by a node keeps the index sound.
#[verifier::rlimit(40)]
proof fn lemma_grown_wf<M: Metric>(
    before: HnswIndex,
    metric: M,
    level: int,
    found: Map<int, Seq<(u32, usize)>>,
    after: HnswIndex,
)
    requires
        before.wf(),
        level >= 0,
        before.is_survey(metric, level, found),
        before.grown(metric, level, found, after),
        forall|l: int, k: int|
            before.joins(level, l) && 0 <= k < found[l].len() ==> stands(
                before.nodes@,
                l,
                (#[trigger] found[l][k]).1 as int,
            ),
        before.nodes@.len() < usize::MAX,
    ensures
        after.wf(),
{
    let id = before.nodes@.len() as int;
    assert forall|l: int| true implies ({
        let c = #[trigger] before.choices(level, found, l);
        &&& c.no_duplicates()
        &&& c.len() <= before.config.allowance(l)
        &&& forall|k: int|
            0 <= k < c.len() ==> stands(before.nodes@, l, #[trigger] c[k] as int)
        &&& c.len() > 0 ==> 0 <= l <= level
    }) by {
        if before.joins(level, l) {
            let far = toward(metric, id);
            let start = choose|start: usize| #[trigger]
                descends(
                    before.nodes@,
                    far,
                    before.entry_point->0,
                    before.max_level as int,
                    level + 1,
                    start,
                ) && surveyed(
                    before.nodes@,
                    far,
                    start,
                    before.config.ef_construction as nat,
                    before.shared_top(level),
                    found,
                );
            assert(all_differ(found[l]));
            lemma_nearest(found[l], before.config.allowance(l));
            let c = before.choices(level, found, l);
            assert forall|k: int| 0 <= k < c.len() implies stands(
                before.nodes@,
                l,
                #[trigger] c[k] as int,
            ) by {
                assert(stands(before.nodes@, l, found[l][k].1 as int));
            }
        }
    }
    // What an old node's list holds afterwards.
    assert forall|i: int, l: int|
        #![trigger after.nodes@[i].links(l)]
        0 <= i < id implies ({
        let near = after.nodes@[i].links(l);
        &&& near.len() <= before.config.allowance(l)
        &&& near.no_duplicates()
        &&& forall|k: int|
            0 <= k < near.len() ==> (#[trigger] near[k] != i && (before.nodes@[i].links(l).contains(
                near[k],
            ) || (near[k] == id && 0 <= l <= level)))
    }) by {
        let old_near = before.nodes@[i].links(l);
        let chosen = before.choices(level, found, l);
        let near = after.nodes@[i].links(l);
        assert forall|k: int| 0 <= k < old_near.len() implies #[trigger] old_near[k] < id by {
            if stands(before.nodes@, l, i) {
                assert(layer_closed(before.nodes@, l));
                assert(stands(before.nodes@, l, before.nodes@[i].links(l)[k] as int));
            }
        }
        if chosen.contains(i as usize) {
            let longer = old_near.push(id as usize);
            assert(longer.no_duplicates()) by {
                assert forall|a: int, b: int|
                    0 <= a < longer.len() && 0 <= b < longer.len() && a != b implies longer[a]
                    != longer[b] by {
                    if a < old_near.len() && b < old_near.len() {
                        assert(old_near[a] != old_near[b]);
                    } else if a < old_near.len() {
                        assert(old_near[a] < id);
                    } else {
                        assert(old_near[b] < id);
                    }
                }
            }
            lemma_trimmed(metric, i, longer, before.config.allowance(l));
            assert forall|k: int| 0 <= k < near.len() implies (#[trigger] near[k] != i && (
            old_near.contains(near[k]) || (near[k] == id && 0 <= l <= level))) by {
                assert(longer.contains(near[k]));
                let j = choose|j: int| 0 <= j < longer.len() && longer[j] == near[k];
                if j < old_near.len() {
                    assert(old_near[j] == near[k]);
                }
            }
        } else {
            assert forall|k: int| 0 <= k < near.len() implies (#[trigger] near[k] != i
                && old_near.contains(near[k])) by {
                assert(old_near[k] == near[k]);
            }
        }
    }
    assert(lists_sound(after.nodes@, after.config)) by {
        assert forall|i: int, l: int|
            #![trigger after.nodes@[i].links(l)]
            0 <= i < after.nodes@.len() implies ({
            let near = after.nodes@[i].links(l);
            &&& near.len() <= after.config.allowance(l)
            &&& near.no_duplicates()
            &&& forall|k: int| 0 <= k < near.len() ==> #[trigger] near[k] != i
        }) by {
            if i == id {
                let c = before.choices(level, found, l);
                assert forall|k: int| 0 <= k < c.len() implies #[trigger] c[k] != i by {
                    assert(stands(before.nodes@, l, c[k] as int));
                }
            }
        }
    }
    assert forall|l: int| #[trigger] layer_closed(after.nodes@, l) by {
        assert forall|i: int, k: int|
            stands(after.nodes@, l, i) && 0 <= k < after.nodes@[i].links(l).len() implies stands(
            after.nodes@,
            l,
            #[trigger] after.nodes@[i].links(l)[k] as int,
        ) by {
            let x = after.nodes@[i].links(l)[k];
            if i == id {
                let c = before.choices(level, found, l);
                assert(stands(before.nodes@, l, c[k] as int));
                assert(after.nodes@[x as int].neighbors@.len()
                    == before.nodes@[x as int].neighbors@.len());
            } else {
                let old_near = before.nodes@[i].links(l);
                if x != id {
                    assert(old_near.contains(x));
                    let j = choose|j: int| 0 <= j < old_near.len() && old_near[j] == x;
                    assert(layer_closed(before.nodes@, l));
                    assert(after.nodes@[i].neighbors@.len()
                        == before.nodes@[i].neighbors@.len());
                    assert(stands(before.nodes@, l, i));
                    assert(stands(before.nodes@, l, before.nodes@[i].links(l)[j] as int));
                    assert(after.nodes@[x as int].neighbors@.len()
                        == before.nodes@[x as int].neighbors@.len());
                }
            }
        }
    }
    assert forall|i: int| 0 <= i < after.nodes@.len() implies (
    #[trigger] after.nodes@[i]).neighbors@.len() == after.nodes@[i].level + 1
        && after.nodes@[i].level <= after.max_level by {
        if i < id {
            assert(before.nodes@[i].level <= before.max_level);
        }
    }
    match before.entry_point {
        Some(e) => {
            assert(after.nodes@[e as int].level == before.nodes@[e as int].level);
        },
        None => {},
    }
}

/// The larger of two numbers.
pub open spec fn larger(a: nat, b: nat) -> nat {
    if a > b {
        a
    } else {
        b
    }
}

/// The hits as node and distance, the first `k`.
pub open spec fn answered(found: Seq<(u32, usize)>, k: nat) -> Seq<(usize, u32)> {
    Seq::new(
        if found.len() < k {
            found.len()
        } else {
            k
        },
        |i: int| (found[i].1, found[i].0),
    )
}

/// Searches a layer for the neighbours of a new node and lets them link back to it.
/// Returns the hits and those of them that were chosen.
fn join_layer<M: Metric>(
    nodes: &mut Vec<HnswNode>,
    config: &HnswConfig,
    metric: &M,
    id: usize,
    cur: usize,
    layer: usize,
    tracker: &mut VisitedTracker,
) -> (r: (Vec<(u32, usize)>, Vec<usize>))
    requires
        layer_closed(old(nodes)@, layer as int),
        stands(old(nodes)@, layer as int, cur as int),
        old(nodes)@.len() == id,
        forall|i: int| 0 <= i <= id ==> #[trigger] metric.covers(i),
        old(tracker).wf(),
    ensures
        final(tracker).wf(),
        is_found(
            net_of(old(nodes)@, layer as int),
            toward(*metric, id as int),
            cur,
            config.ef_construction as nat,
            r.0@,
        ),
        forall|k: int|
            0 <= k < r.0@.len() ==> stands(old(nodes)@, layer as int, (#[trigger] r.0@[k]).1 as int),
        r.1@ == nearest(r.0@, config.allowance(layer as int)),
        final(nodes)@.len() == id,
        forall|i: int|
            0 <= i < id ==> (#[trigger] final(nodes)@[i]).level == old(nodes)@[i].level
                && final(nodes)@[i].neighbors@.len() == old(nodes)@[i].neighbors@.len(),
        forall|i: int, l: int|
            0 <= i < id ==> #[trigger] final(nodes)@[i].links(l) == if l == layer {
                linked_back(
                    *metric,
                    old(nodes)@[i].links(l),
                    i,
                    id,
                    r.1@,
                    config.allowance(layer as int),
                )
            } else {
                old(nodes)@[i].links(l)
            },
{
    tracker.advance();
    let candidates = search_layer(
        &*nodes,
        metric,
        id,
        cur,
        config.ef_construction,
        layer,
        tracker,
    );
    let m_max: usize = config.width(layer);
    let selected = select_neighbors(&candidates, m_max);
    proof {
        lemma_nearest(candidates@, m_max as nat);
        assert forall|k: int| 0 <= k < selected@.len() implies stands(
            nodes@,
            layer as int,
            #[trigger] selected@[k] as int,
        ) by {
            assert(stands(nodes@, layer as int, candidates@[k].1 as int));
        }
        assert forall|i: int, k: int|
            0 <= i < nodes@.len() && 0 <= k < nodes@[i].links(layer as int).len() implies (
        #[trigger] nodes@[i].links(layer as int)[k]) < id by {
            if stands(nodes@, layer as int, i) {
                assert(stands(nodes@, layer as int, nodes@[i].links(layer as int)[k] as int));
            }
        }
    }
    link_all(nodes, metric, id, &selected, layer, m_max);
    (candidates, selected)
}

/// The hits of the layer above lead into a layer.
spec fn way_in(found: Map<int, Seq<(u32, usize)>>, start: usize, top: int, l: int) -> usize {
    if l == top {
        start
    } else {
        found[l + 1][0].1
    }
}

/// An insertion that has dealt with the layers from `low` up to the shared top.
#[verifier::opaque]
spec fn partway<M: Metric>(
    before: HnswIndex,
    metric: M,
    level: int,
    start: usize,
    low: int,
    found: Map<int, Seq<(u32, usize)>>,
    nodes: Seq<HnswNode>,
    fresh: Seq<Vec<usize>>,
) -> bool {
    let id = before.nodes@.len();
    let top = before.shared_top(level);
    &&& fresh.len() == level + 1
    &&& forall|q: int|
        0 <= q <= level ==> (#[trigger] fresh[q])@ == if low <= q <= top {
            nearest(found[q], before.config.allowance(q))
        } else {
            Seq::empty()
        }
    &&& forall|q: int|
        low <= q <= top ==> is_found(
            net_of(before.nodes@, q),
            toward(metric, id as int),
            way_in(found, start, top, q),
            before.config.ef_construction as nat,
            #[trigger] found[q],
        )
    &&& forall|q: int, k: int|
        low <= q <= top && 0 <= k < found[q].len() ==> stands(
            before.nodes@,
            q,
            (#[trigger] found[q][k]).1 as int,
        )
    &&& nodes.len() == id
    &&& forall|i: int|
        0 <= i < id ==> (#[trigger] nodes[i]).level == before.nodes@[i].level
            && nodes[i].neighbors@.len() == before.nodes@[i].neighbors@.len()
    &&& forall|i: int, q: int|
        0 <= i < id ==> #[trigger] nodes[i].links(q) == if low <= q <= top {
            linked_back(
                metric,
                before.nodes@[i].links(q),
                i,
                id as usize,
                nearest(found[q], before.config.allowance(q)),
                before.config.allowance(q),
            )
        } else {
            before.nodes@[i].links(q)
        }
}

proof fn lemma_partway_start<M: Metric>(
    before: HnswIndex,
    metric: M,
    level: int,
    start: usize,
    found: Map<int, Seq<(u32, usize)>>,
    fresh: Seq<Vec<usize>>,
)
    requires
        fresh.len() == level + 1,
        forall|q: int| 0 <= q <= level ==> (#[trigger] fresh[q])@ == Seq::<usize>::empty(),
    ensures
        partway(
            before,
            metric,
            level,
            start,
            before.shared_top(level) + 1,
            found,
            before.nodes@,
            fresh,
        ),
{
    reveal(partway);
}

/// The layer below the ones dealt with is still as it was.
proof fn lemma_partway_below<M: Metric>(
    before: HnswIndex,
    metric: M,
    level: int,
    start: usize,
    low: int,
    found: Map<int, Seq<(u32, usize)>>,
    nodes: Seq<HnswNode>,
    fresh: Seq<Vec<usize>>,
)
    requires
        before.wf(),
        partway(before, metric, level, start, low, found, nodes, fresh),
    ensures
        nodes.len() == before.nodes@.len(),
        fresh.len() == level + 1,
        net_of(nodes, low - 1) == net_of(before.nodes@, low - 1),
        layer_closed(nodes, low - 1),
        forall|i: int| #[trigger] stands(nodes, low - 1, i) == stands(before.nodes@, low - 1, i),
{
    reveal(partway);
    assert(layer_closed(before.nodes@, low - 1));
    lemma_layer_kept(before.nodes@, nodes, low - 1);
    assert(net_of(nodes, low - 1) =~= net_of(before.nodes@, low - 1)) by {
        assert forall|i: int| 0 <= i < nodes.len() implies #[trigger] nodes[i].links(low - 1)
            == before.nodes@[i].links(low - 1) by {}
    }
}

#[verifier::rlimit(40)]
proof fn lemma_partway_step<M: Metric>(
    before: HnswIndex,
    metric: M,
    level: int,
    start: usize,
    low: int,
    found: Map<int, Seq<(u32, usize)>>,
    nodes: Seq<HnswNode>,
    fresh: Seq<Vec<usize>>,
    hits: Seq<(u32, usize)>,
    after: Seq<HnswNode>,
    chosen: Vec<usize>,
)
    requires
        before.wf(),
        partway(before, metric, level, start, low + 1, found, nodes, fresh),
        0 <= low <= before.shared_top(level),
        is_found(
            net_of(before.nodes@, low),
            toward(metric, before.nodes@.len() as int),
            way_in(found, start, before.shared_top(level), low),
            before.config.ef_construction as nat,
            hits,
        ),
        forall|k: int|
            0 <= k < hits.len() ==> stands(before.nodes@, low, (#[trigger] hits[k]).1 as int),
        chosen@ == nearest(hits, before.config.allowance(low)),
        after.len() == nodes.len(),
        forall|i: int|
            0 <= i < nodes.len() ==> (#[trigger] after[i]).level == nodes[i].level
                && after[i].neighbors@.len() == nodes[i].neighbors@.len(),
        forall|i: int, l: int|
            0 <= i < nodes.len() ==> #[trigger] after[i].links(l) == if l == low {
                linked_back(
                    metric,
                    nodes[i].links(l),
                    i,
                    before.nodes@.len() as usize,
                    chosen@,
                    before.config.allowance(low),
                )
            } else {
                nodes[i].links(l)
            },
    ensures
        partway(
            before,
            metric,
            level,
            start,
            low,
            found.insert(low, hits),
            after,
            fresh.update(low, chosen),
        ),
{
    reveal(partway);
    let top = before.shared_top(level);
    let more = found.insert(low, hits);
    assert(more[low] == hits);
    assert forall|q: int| q != low implies #[trigger] more[q] == found[q] by {}
    assert forall|i: int, q: int| 0 <= i < nodes.len() implies #[trigger] after[i].links(q)
        == if low <= q <= top {
        linked_back(
            metric,
            before.nodes@[i].links(q),
            i,
            before.nodes@.len() as usize,
            nearest(more[q], before.config.allowance(q)),
            before.config.allowance(q),
        )
    } else {
        before.nodes@[i].links(q)
    } by {
        let was = nodes[i].links(q);
    }
    assert forall|q: int| low <= q <= top implies is_found(
        net_of(before.nodes@, q),
        toward(metric, before.nodes@.len() as int),
        way_in(more, start, top, q),
        before.config.ef_construction as nat,
        #[trigger] more[q],
    ) by {
        if q < top {
            assert(more[q + 1] == found[q + 1]);
        }
    }
    assert forall|q: int, k: int| low <= q <= top && 0 <= k < more[q].len() implies stands(
        before.nodes@,
        q,
        (#[trigger] more[q][k]).1 as int,
    ) by {
        if q != low {
            assert(stands(before.nodes@, q, found[q][k].1 as int));
        } else {
            assert(stands(before.nodes@, low, hits[k].1 as int));
        }
    }
}

/// An insertion that has dealt with all layers has grown the index by the new node.
proof fn lemma_partway_end<M: Metric>(
    before: HnswIndex,
    metric: M,
    level: int,
    start: usize,
    entry: usize,
    found: Map<int, Seq<(u32, usize)>>,
    nodes: Seq<HnswNode>,
    fresh: Vec<Vec<usize>>,
    after: HnswIndex,
)
    requires
        before.wf(),
        level >= 0,
        before.nodes@.len() < usize::MAX,
        before.entry_point == Some(entry),
        descends(
            before.nodes@,
            toward(metric, before.nodes@.len() as int),
            entry,
            before.max_level as int,
            level + 1,
            start,
        ),
        partway(before, metric, level, start, 0, found, nodes, fresh@),
        after.config == before.config,
        after.nodes@ == nodes.push((HnswNode { level: level as usize, neighbors: fresh })),
        level == level as usize,
        after.entry_point == if level > before.max_level {
            Some(before.nodes@.len() as usize)
        } else {
            before.entry_point
        },
        after.max_level == if level > before.max_level {
            level
        } else {
            before.max_level as int
        },
    ensures
        before.is_survey(metric, level, found),
        before.grown(metric, level, found, after),
        after.wf(),
{
    reveal(partway);
    let id = before.nodes@.len();
    let far = toward(metric, id as int);
    let top = before.shared_top(level);
    assert(surveyed(
        before.nodes@,
        far,
        start,
        before.config.ef_construction as nat,
        top,
        found,
    )) by {
        assert forall|l: int| 0 <= l <= top implies is_found(
            net_of(before.nodes@, l),
            far,
            if l == top {
                start
            } else {
                found[l + 1][0].1
            },
            before.config.ef_construction as nat,
            #[trigger] found[l],
        ) by {
            let w = way_in(found, start, top, l);
        }
    }
    assert(before.is_survey(metric, level, found));
    assert forall|l: int|
        after.nodes@[id as int].links(l) == #[trigger] before.choices(level, found, l) by {
        let c = before.choices(level, found, l);
        if 0 <= l <= level {
            assert(fresh@[l]@ == c);
        } else {
            assert(after.nodes@[id as int].links(l) =~= c);
        }
    }
    assert forall|i: int, l: int| 0 <= i < id implies #[trigger] after.nodes@[i].links(l)
        == linked_back(
        metric,
        before.nodes@[i].links(l),
        i,
        id as usize,
        before.choices(level, found, l),
        before.config.allowance(l),
    ) by {
        assert(after.nodes@[i] == nodes[i]);
        let was = nodes[i].links(l);
        if !before.joins(level, l) {
            assert(!before.choices(level, found, l).contains(i as usize));
        }
    }
    assert forall|i: int| 0 <= i < id implies (#[trigger] after.nodes@[i]).level
        == before.nodes@[i].level && after.nodes@[i].neighbors@.len()
        == before.nodes@[i].neighbors@.len() by {
        assert(after.nodes@[i] == nodes[i]);
    }
    assert(before.grown(metric, level, found, after));
    lemma_grown_wf(before, metric, level, found, after);
}

/// The first node of an index.
proof fn lemma_first_node<M: Metric>(
    before: HnswIndex,
    metric: M,
    level: int,
    fresh: Vec<Vec<usize>>,
    after: HnswIndex,
)
    requires
        before.wf(),
        level >= 0,
        before.entry_point is None,
        fresh@.len() == level + 1,
        forall|q: int| 0 <= q <= level ==> (#[trigger] fresh@[q])@ == Seq::<usize>::empty(),
        level == level as usize,
        after.config == before.config,
        after.nodes@ == before.nodes@.push(
            (HnswNode { level: level as usize, neighbors: fresh }),
        ),
        after.entry_point == Some(0usize),
        after.max_level == level,
    ensures
        before.is_survey(metric, level, Map::empty()),
        before.grown(metric, level, Map::empty(), after),
        after.wf(),
{
    let found = Map::<int, Seq<(u32, usize)>>::empty();
    assert forall|l: int|
        after.nodes@[0].links(l) == #[trigger] before.choices(level, found, l) by {
        assert(after.nodes@[0].links(l) =~= before.choices(level, found, l));
    }
    assert(before.grown(metric, level, found, after));
    lemma_grown_wf(before, metric, level, found, after);
}

fn no_neighbors(count: usize) -> (r: Vec<Vec<usize>>)
    ensures
        r@.len() == count,
        forall|q: int| 0 <= q < count ==> (#[trigger] r@[q])@ == Seq::<usize>::empty(),
{
    let mut r: Vec<Vec<usize>> = Vec::new();
    let mut i: usize = 0;
    while i < count
        invariant
            i <= count,
            r@.len() == i,
            forall|q: int| 0 <= q < i ==> (#[trigger] r@[q])@ == Seq::<usize>::empty(),
        decreases count - i,
    {
        r.push(Vec::new());
        i += 1;
    }
    r
}

impl HnswIndex {
    /// Descends greedily from the entry through the layers from the top down to `low`.
    fn approach<M: Metric>(&self, metric: &M, query: usize, entry: usize, low: usize) -> (r: usize)
        requires
            self.wf(),
            self.entry_point == Some(entry),
            low >= 1,
            metric.covers(query as int),
            forall|i: int| 0 <= i < self.nodes@.len() ==> #[trigger] metric.covers(i),
        ensures
            descends(
                self.nodes@,
                toward(*metric, query as int),
                entry,
                self.max_level as int,
                low as int,
                r,
            ),
            stands(self.nodes@, self.shared_top(low - 1), r as int),
    {
        let ghost far = toward(*metric, query as int);
        let mut cur: usize = entry;
        let mut lc: usize = self.max_level;
        while lc >= low
            invariant
                self.wf(),
                low >= 1,
                self.entry_point == Some(entry),
                far == toward(*metric, query as int),
                metric.covers(query as int),
                forall|i: int| 0 <= i < self.nodes@.len() ==> #[trigger] metric.covers(i),
                lc <= self.max_level,
                lc >= low - 1 || lc == self.max_level,
                stands(self.nodes@, lc as int, cur as int),
                descends(self.nodes@, far, entry, self.max_level as int, lc + 1, cur),
            decreases lc,
        {
            assert(layer_closed(self.nodes@, lc as int));
            let next: usize = descend(&self.nodes, metric, query, cur, lc);
            proof {
                lemma_descends_on(
                    self.nodes@,
                    far,
                    entry,
                    self.max_level as int,
                    lc + 1,
                    cur,
                    next,
                );
            }
            cur = next;
            lc -= 1;
        }
        cur
    }

    /// Stores the next vector, numbered `id`, in the layers up to `level`.
    pub fn insert<M: Metric>(&mut self, id: usize, level: usize, metric: &M)
        requires
            old(self).wf(),
            id == old(self).nodes@.len(),
            id < usize::MAX,
            level < usize::MAX,
            forall|i: int| 0 <= i <= id ==> #[trigger] metric.covers(i),
        ensures
            final(self).wf(),
            exists|found: Map<int, Seq<(u32, usize)>>| #[trigger]
                old(self).is_survey(*metric, level as int, found) && old(self).grown(
                    *metric,
                    level as int,
                    found,
                    *final(self),
                ),
    {
        let ghost before = *self;
        let ghost mut found: Map<int, Seq<(u32, usize)>> = Map::empty();
        let mut fresh: Vec<Vec<usize>> = no_neighbors(level + 1);
        match self.entry_point {
            Some(entry) => {
                let ghost top = before.shared_top(level as int);
                let start: usize = self.approach(metric, id, entry, level + 1);
                let mut cur: usize = start;
                let mut tracker = VisitedTracker::new(self.nodes.len());
                let shared: usize = if level < self.max_level {
                    level
                } else {
                    self.max_level
                };
                let mut l: usize = shared + 1;
                proof {
                    lemma_partway_start(before, *metric, level as int, start, found, fresh@);
                }
                while l > 0
                    invariant
                        before.wf(),
                        self.config == before.config,
                        self.entry_point == before.entry_point,
                        self.max_level == before.max_level,
                        id == before.nodes@.len(),
                        forall|i: int| 0 <= i <= id ==> #[trigger] metric.covers(i),
                        top == before.shared_top(level as int),
                        l <= top + 1,
                        tracker.wf(),
                        l > 0 ==> stands(before.nodes@, l - 1, cur as int),
                        l > 0 ==> cur == way_in(found, start, top, l - 1),
                        partway(
                            before,
                            *metric,
                            level as int,
                            start,
                            l as int,
                            found,
                            self.nodes@,
                            fresh@,
                        ),
                    decreases l,
                {
                    let ghost now = self.nodes@;
                    let ghost fresh0 = fresh@;
                    proof {
                        lemma_partway_below(
                            before,
                            *metric,
                            level as int,
                            start,
                            l as int,
                            found,
                            now,
                            fresh0,
                        );
                    }
                    l -= 1;
                    let (candidates, selected) = join_layer(
                        &mut self.nodes,
                        &self.config,
                        metric,
                        id,
                        cur,
                        l,
                        &mut tracker,
                    );
                    proof {
                        assert forall|k: int| 0 <= k < candidates@.len() implies stands(
                            before.nodes@,
                            l as int,
                            (#[trigger] candidates@[k]).1 as int,
                        ) by {
                            assert(stands(now, l as int, candidates@[k].1 as int));
                        }
                        lemma_partway_step(
                            before,
                            *metric,
                            level as int,
                            start,
                            l as int,
                            found,
                            now,
                            fresh0,
                            candidates@,
                            self.nodes@,
                            selected,
                        );
                        found = found.insert(l as int, candidates@);
                        if l > 0 {
                            let e = before.entry_point->0;
                            assert(stands(before.nodes@, l as int, candidates@[0].1 as int));
                        }
                    }
                    cur = candidates[0].1;
                    fresh.set(l, selected);
                }
                if level > self.max_level {
                    self.max_level = level;
                    self.entry_point = Some(id);
                }
                let ghost joined = self.nodes@;
                self.nodes.push(HnswNode { level, neighbors: fresh });
                proof {
                    lemma_partway_end(
                        before,
                        *metric,
                        level as int,
                        start,
                        entry,
                        found,
                        joined,
                        fresh,
                        *self,
                    );
                }
            },
            None => {
                self.entry_point = Some(id);
                self.max_level = level;
                self.nodes.push(HnswNode { level, neighbors: fresh });
                proof {
                    lemma_first_node(before, *metric, level as int, fresh, *self);
                }
            },
        }
        assert(before.is_survey(*metric, level as int, found));
    }

    /// What a search comes upon: greedy descents lead from the entry to `start`, and the
    /// ground layer is searched from there.
    pub open spec fn is_search(
        &self,
        far: spec_fn(usize) -> u32,
        ef: nat,
        start: usize,
        found: Seq<(u32, usize)>,
    ) -> bool {
        &&& self.entry_point is Some
        &&& descends(
            self.nodes@,
            far,
            self.entry_point->0,
            self.max_level as int,
            1,
            start,
        )
        &&& is_found(net_of(self.nodes@, 0), far, start, ef, found)
    }

    /// The `k` stored vectors nearest to the query that the search comes upon, with
    /// their distances, nearest first.
    pub fn search<M: Metric>(&self, metric: &M, query: usize, k: usize, ef_search: usize) -> (r: Vec<
        (usize, u32),
    >)
        requires
            self.wf(),
            metric.covers(query as int),
            forall|i: int| 0 <= i < self.nodes@.len() ==> #[trigger] metric.covers(i),
        ensures
            match self.entry_point {
                None => r@.len() == 0,
                Some(_) => exists|start: usize, found: Seq<(u32, usize)>| #[trigger]
                    self.is_search(
                        toward(*metric, query as int),
                        larger(ef_search as nat, k as nat),
                        start,
                        found,
                    ) && r@ == answered(found, k as nat),
            },
            r@.len() <= k,
            self.entry_point is Some && k > 0 ==> r@.len() > 0,
            forall|i: int, j: int|
                0 <= i < j < r@.len() ==> (#[trigger] r@[i]).1 <= (#[trigger] r@[j]).1 && r@[i].0
                    != r@[j].0,
            forall|i: int|
                0 <= i < r@.len() ==> (#[trigger] r@[i]).1 == metric.gap(
                    r@[i].0 as int,
                    query as int,
                ),
    {
        let ghost far = toward(*metric, query as int);
        let entry: usize = match self.entry_point {
            Some(e) => e,
            None => return Vec::new(),
        };
        let cur: usize = self.approach(metric, query, entry, 1);
        let ef: usize = if ef_search > k {
            ef_search
        } else {
            k
        };
        let mut tracker = VisitedTracker::new(self.nodes.len());
        tracker.advance();
        assert(layer_closed(self.nodes@, 0));
        let found = search_layer(&self.nodes, metric, query, cur, ef, 0, &mut tracker);
        let mut r: Vec<(usize, u32)> = Vec::new();
        let mut i: usize = 0;
        while i < found.len() && i < k
            invariant
                i <= found@.len(),
                i <= k,
                r@.len() == i,
                forall|j: int| 0 <= j < i ==> #[trigger] r@[j] == (found@[j].1, found@[j].0),
            decreases found@.len() - i,
        {
            r.push((found[i].1, found[i].0));
            i += 1;
        }
        assert(r@ =~= answered(found@, k as nat));
        assert(self.is_search(
            toward(*metric, query as int),
            larger(ef_search as nat, k as nat),
            cur,
            found@,
        ));
        proof {
            hits_come_nearest_first(
                *self,
                *metric,
                query as int,
                k as nat,
                ef_search as nat,
                cur,
                found@,
            );
        }
        r
    }
}

/// A neighbour list that is cut down keeps the nearest: as many as it may hold, each of
/// the list, nearest first, and none that is dropped is nearer than one that is kept. A
/// list that is short enough stays as it is.
pub proof fn cut_list_keeps_the_nearest<M: Metric>(metric: M, node: int, near: Seq<usize>, m: nat)
    ensures
        near.len() <= m ==> trimmed(metric, node, near, m) == near,
        near.len() > m ==> ({
            let r = trimmed(metric, node, near, m);
            &&& r.len() == m
            &&& forall|i: int| 0 <= i < r.len() ==> near.contains(#[trigger] r[i])
            &&& forall|i: int, j: int|
                0 <= i < j < r.len() ==> metric.gap(node, #[trigger] r[i] as int) <= metric.gap(
                    node,
                    #[trigger] r[j] as int,
                )
            &&& forall|k: int, i: int|
                0 <= k < near.len() && 0 <= i < r.len() && !r.contains(near[k]) ==> metric.gap(
                    node,
                    #[trigger] r[i] as int,
                ) <= metric.gap(node, #[trigger] near[k] as int)
        }),
{
    if near.len() > m {
        let s = scored(metric, node, near);
        let lt = nearer();
        let t = sorted_by(s, lt);
        let kept = crate::trails::first_of(t, m);
        let r = trimmed(metric, node, near, m);
        assert(crate::sorting::is_weak_order(lt));
        crate::sorting::first_sorted_are_the_least(s, lt, m);
        sorted_keeps_items(s, lt);
        assert(kept.len() == m);
        assert forall|i: int| 0 <= i < m implies #[trigger] r[i] == kept[i].1 && kept[i] == (
            metric.gap(node, r[i] as int),
            r[i],
        ) && near.contains(r[i]) by {
            assert(kept[i] == t[i]);
            assert(s.contains(kept[i]));
            let k = choose|k: int| 0 <= k < s.len() && s[k] == kept[i];
            assert(s[k] == (metric.gap(node, near[k] as int), near[k]));
            assert(near[k] == r[i]);
        }
        assert forall|i: int, j: int| 0 <= i < j < r.len() implies metric.gap(
            node,
            #[trigger] r[i] as int,
        ) <= metric.gap(node, #[trigger] r[j] as int) by {
            assert(r[i] == kept[i].1 && r[j] == kept[j].1);
            assert(!lt(kept[j], kept[i]));
        }
        assert forall|k: int, i: int|
            0 <= k < near.len() && 0 <= i < r.len() && !r.contains(near[k]) implies metric.gap(
            node,
            #[trigger] r[i] as int,
        ) <= metric.gap(node, #[trigger] near[k] as int) by {
            assert(r[i] == kept[i].1);
            assert(s[k] == (metric.gap(node, near[k] as int), near[k]));
            if kept.contains(s[k]) {
                let q = choose|q: int| 0 <= q < kept.len() && kept[q] == s[k];
                assert(r[q] == near[k]);
            }
            assert(!lt(s[k], kept[i]));
        }
    }
}

/// Whom a new node links to in a layer: the nearest of those that its search of the
/// layer found, nearest first, and as many as a node may have there, which is `m0` on
/// the ground layer and `m` above it, or all that were found.
pub proof fn new_node_links_to_the_nearest<M: Metric>(
    index: HnswIndex,
    metric: M,
    level: int,
    found: Map<int, Seq<(u32, usize)>>,
    after: HnswIndex,
    layer: int,
)
    requires
        index.is_survey(metric, level, found),
        index.grown(metric, level, found, after),
        index.entry_point is Some,
        0 <= layer <= level,
        layer <= index.max_level,
    ensures
        ({
            let id = index.nodes@.len() as int;
            let near = after.nodes@[id].links(layer);
            let most = if layer == 0 {
                index.config.m0 as int
            } else {
                index.config.m as int
            };
            &&& near.len() == most || (near.len() < most && near.len() == found[layer].len())
            &&& forall|i: int| 0 <= i < near.len() ==> lists(found[layer], #[trigger] near[i])
            &&& forall|i: int, j: int|
                0 <= i < j < near.len() ==> metric.gap(#[trigger] near[i] as int, id) <= metric.gap(
                    #[trigger] near[j] as int,
                    id,
                )
            &&& forall|x: usize| #[trigger]
                lists(found[layer], x) ==> near.contains(x) || forall|i: int|
                    0 <= i < near.len() ==> metric.gap(#[trigger] near[i] as int, id) <= metric.gap(
                        x as int,
                        id,
                    )
        }),
{
    let id = index.nodes@.len() as int;
    let far = toward(metric, id);
    let top = index.shared_top(level);
    let entry = index.entry_point->0;
    let start = choose|start: usize| #[trigger]
        descends(index.nodes@, far, entry, index.max_level as int, level + 1, start) && surveyed(
            index.nodes@,
            far,
            start,
            index.config.ef_construction as nat,
            top,
            found,
        );
    let hits = found[layer];
    let from = if layer == top {
        start
    } else {
        found[layer + 1][0].1
    };
    assert(is_found(
        net_of(index.nodes@, layer),
        far,
        from,
        index.config.ef_construction as nat,
        found[layer],
    ));
    let near = after.nodes@[id].links(layer);
    assert(near == index.choices(level, found, layer));
    assert forall|i: int| 0 <= i < near.len() implies lists(hits, #[trigger] near[i]) && metric.gap(
        near[i] as int,
        id,
    ) == hits[i].0 by {
        assert(hits[i].1 == near[i]);
        assert(hits[i].0 == far(hits[i].1));
    }
    assert forall|i: int, j: int| 0 <= i < j < near.len() implies metric.gap(
        #[trigger] near[i] as int,
        id,
    ) <= metric.gap(#[trigger] near[j] as int, id) by {
        assert(hits[i].0 <= hits[j].0);
    }
    assert forall|x: usize| #[trigger] lists(hits, x) implies near.contains(x) || forall|i: int|
        0 <= i < near.len() ==> metric.gap(#[trigger] near[i] as int, id) <= metric.gap(
            x as int,
            id,
        ) by {
        let at = choose|at: int| 0 <= at < hits.len() && (#[trigger] hits[at]).1 == x;
        if at < near.len() {
            assert(near[at] == x);
        } else {
            assert forall|i: int| 0 <= i < near.len() implies metric.gap(
                #[trigger] near[i] as int,
                id,
            ) <= metric.gap(x as int, id) by {
                assert(hits[i].0 <= hits[at].0);
                assert(hits[at].0 == far(hits[at].1));
            }
        }
    }
}

/// Whoever a new node links to links back to it, unless it has as many neighbours as it
/// may have and none of them is farther. Every other node keeps its neighbours.
pub proof fn chosen_nodes_link_back<M: Metric>(
    index: HnswIndex,
    metric: M,
    level: int,
    found: Map<int, Seq<(u32, usize)>>,
    after: HnswIndex,
    layer: int,
    i: int,
)
    requires
        index.grown(metric, level, found, after),
        0 <= i < index.nodes@.len() < usize::MAX,
    ensures
        ({
            let id = index.nodes@.len() as int;
            let chosen = after.nodes@[id].links(layer).contains(i as usize);
            let was = index.nodes@[i].links(layer);
            let now = after.nodes@[i].links(layer);
            let most = if layer == 0 {
                index.config.m0 as int
            } else {
                index.config.m as int
            };
            &&& !chosen ==> now == was
            &&& chosen && was.len() < most ==> now == was.push(id as usize)
            &&& chosen && was.len() >= most ==> now.len() == most && (now.contains(id as usize)
                || forall|k: int|
                0 <= k < now.len() ==> metric.gap(i, #[trigger] now[k] as int) <= metric.gap(
                    i,
                    id,
                ))
        }),
{
    let id = index.nodes@.len();
    let choices = index.choices(level, found, layer);
    let was = index.nodes@[i].links(layer);
    let now = after.nodes@[i].links(layer);
    let m = index.config.allowance(layer);
    assert(after.nodes@[id as int].links(layer) == choices);
    assert(now == linked_back(metric, was, i, id as usize, choices, m));
    if choices.contains(i as usize) {
        let grown_list = was.push(id as usize);
        cut_list_keeps_the_nearest(metric, i, grown_list, m);
        if grown_list.len() > m && !now.contains(id as usize) {
            assert(grown_list[was.len() as int] == id as usize);
            assert forall|k: int| 0 <= k < now.len() implies metric.gap(
                i,
                #[trigger] now[k] as int,
            ) <= metric.gap(i, id as int) by {
                assert(!now.contains(grown_list[was.len() as int]));
                assert(metric.gap(i, now[k] as int) <= metric.gap(
                    i,
                    grown_list[was.len() as int] as int,
                ));
            }
        }
    }
}

/// The hits of a search never get nearer from one to the next, each has its own
/// distance from the query, and none is there twice. As many as are asked for come
/// back, or everything that was found. What was found and does not come back lies no
/// nearer than any hit.
pub proof fn hits_come_nearest_first<M: Metric>(
    index: HnswIndex,
    metric: M,
    query: int,
    k: nat,
    ef: nat,
    start: usize,
    found: Seq<(u32, usize)>,
)
    requires
        index.is_search(toward(metric, query), larger(ef, k), start, found),
    ensures
        ({
            let r = answered(found, k);
            &&& r.len() == k || (r.len() < k && r.len() == found.len())
            &&& forall|i: int, j: int|
                0 <= i < j < r.len() ==> (#[trigger] r[i]).1 <= (#[trigger] r[j]).1 && r[i].0
                    != r[j].0
            &&& forall|i: int|
                0 <= i < r.len() ==> (#[trigger] r[i]).1 == metric.gap(r[i].0 as int, query)
                    && found.contains((r[i].1, r[i].0))
            &&& forall|x: usize| #[trigger]
                lists(found, x) ==> (exists|i: int| 0 <= i < r.len() && (#[trigger] r[i]).0 == x)
                    || (r.len() == k && forall|i: int|
                    0 <= i < r.len() ==> (#[trigger] r[i]).1 <= metric.gap(x as int, query))
        }),
{
    let far = toward(metric, query);
    let r = answered(found, k);
    assert forall|i: int| 0 <= i < r.len() implies (#[trigger] r[i]).1 == metric.gap(
        r[i].0 as int,
        query,
    ) && found.contains((r[i].1, r[i].0)) by {
        assert(found[i].0 == far(found[i].1));
    }
    assert forall|x: usize| #[trigger] lists(found, x) implies (exists|i: int|
        0 <= i < r.len() && (#[trigger] r[i]).0 == x) || (r.len() == k && forall|i: int|
        0 <= i < r.len() ==> (#[trigger] r[i]).1 <= metric.gap(x as int, query)) by {
        let at = choose|at: int| 0 <= at < found.len() && (#[trigger] found[at]).1 == x;
        assert(found[at].0 == far(found[at].1));
        if at < r.len() {
            assert(r[at].0 == x);
        } else {
            assert forall|i: int| 0 <= i < r.len() implies (#[trigger] r[i]).1 <= metric.gap(
                x as int,
                query,
            ) by {
                assert(found[i].0 <= found[at].0);
            }
        }
    }
}

/// A search whose list is wide enough for all that links lead to on the ground layer
/// returns what lies nearest of all of it: nothing left out is nearer than a hit.
pub proof fn wide_search_returns_the_nearest<M: Metric>(
    index: HnswIndex,
    metric: M,
    query: int,
    k: nat,
    ef: nat,
    start: usize,
    found: Seq<(u32, usize)>,
    x: usize,
)
    requires
        index.is_search(toward(metric, query), larger(ef, k), start, found),
        found.len() < ef || found.len() < k,
        reaches(net_of(index.nodes@, 0), start, x),
    ensures
        ({
            let r = answered(found, k);
            ||| exists|i: int| 0 <= i < r.len() && (#[trigger] r[i]).0 == x
            ||| r.len() == k && forall|i: int|
                0 <= i < r.len() ==> (#[trigger] r[i]).1 <= metric.gap(x as int, query)
        }),
{
    unfilled_search_is_complete(
        net_of(index.nodes@, 0),
        toward(metric, query),
        start,
        larger(ef, k),
        found,
        x,
    );
    hits_come_nearest_first(index, metric, query, k, ef, start, found);
}

proof fn lemma_layer_kept(before: Seq<HnswNode>, after: Seq<HnswNode>, layer: int)
    requires
        layer_closed(before, layer),
        after.len() == before.len(),
        forall|i: int|
            0 <= i < before.len() ==> (#[trigger] after[i]).neighbors@.len()
                == before[i].neighbors@.len(),
        forall|i: int|
            0 <= i < before.len() ==> #[trigger] after[i].links(layer) == before[i].links(layer),
    ensures
        layer_closed(after, layer),
        forall|i: int| #[trigger] stands(after, layer, i) == stands(before, layer, i),
{
    assert forall|i: int, k: int|
        stands(after, layer, i) && 0 <= k < after[i].links(layer).len() implies stands(
        after,
        layer,
        #[trigger] after[i].links(layer)[k] as int,
    ) by {
        assert(stands(before, layer, i));
        assert(stands(before, layer, before[i].links(layer)[k] as int));
    }
}

} // verus!
