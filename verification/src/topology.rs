//! What places in the graph are like one another: the model that learns it from
//! walks, up to the arithmetic of the vectors.

use crate::adjacency::{gather, pair_weight, rows_sound, total_weight, weight_in, LEAST_WEIGHT};
use crate::graph::{weighted_ends, GraphModel, KnowledgeGraph};
use crate::rng::{FastRng, RngState};
use crate::sorting::{lemma_sorted_views, sort_by, sorted_by};
use crate::text::{
    chars_of, group_views, lowercase, same, str_trim, string_range, to_lowercase, trim, views,
};
use crate::walks::{
    generate_walks, node2vec_walk, plain, plain_walks, rounds, walked, WalkPlan,
};
use vstd::prelude::*;

verus! {

// ---------------------------------------------------------------------------
// Names
// ---------------------------------------------------------------------------

/// The text without opening double brackets.
pub open spec fn without_opening(s: Seq<char>) -> Seq<char>
    decreases s.len(),
{
    if s.len() >= 2 && s[0] == '[' && s[1] == '[' {
        without_opening(s.skip(2))
    } else {
        s
    }
}

/// The text without closing double brackets.
pub open spec fn without_closing(s: Seq<char>) -> Seq<char>
    decreases s.len(),
{
    if s.len() >= 2 && s[s.len() - 1] == ']' && s[s.len() - 2] == ']' {
        without_closing(s.take(s.len() - 2))
    } else {
        s
    }
}

/// A note's name as it may be given: with white space around it, or as a link.
pub open spec fn bare_name(s: Seq<char>) -> Seq<char> {
    without_closing(without_opening(trim(s)))
}

fn strip_name(note: &str) -> (r: String)
    ensures
        r@ == bare_name(note@),
{
    let trimmed = str_trim(note);
    let v = chars_of(trimmed.as_str());
    let mut i: usize = 0;
    assert(v@.skip(0) =~= v@);
    while v.len() - i >= 2 && v[i] == '[' && v[i + 1] == '['
        invariant
            i <= v@.len(),
            v@ == trim(note@),
            without_opening(v@.skip(i as int)) == without_opening(v@),
        ensures
            i <= v@.len(),
            without_opening(v@) == v@.skip(i as int),
        decreases v.len() - i,
    {
        assert(v@.skip(i as int).skip(2) =~= v@.skip(i + 2));
        i += 2;
    }
    let ghost rest = v@.skip(i as int);
    let mut j: usize = v.len();
    assert(rest =~= v@.subrange(i as int, j as int));
    while j - i >= 2 && v[j - 1] == ']' && v[j - 2] == ']'
        invariant
            i <= j <= v@.len(),
            without_closing(v@.subrange(i as int, j as int)) == without_closing(rest),
        ensures
            i <= j <= v@.len(),
            without_closing(rest) == v@.subrange(i as int, j as int),
        decreases j - i,
    {
        let ghost s = v@.subrange(i as int, j as int);
        assert(s.take(s.len() - 2) =~= v@.subrange(i as int, j - 2));
        j -= 2;
    }
    string_range(&v, i, j)
}

/// The last place where a name stands.
pub open spec fn last_named(names: Seq<Seq<char>>, name: Seq<char>) -> Option<usize>
    decreases names.len(),
{
    if names.len() == 0 {
        None
    } else if names.last() == name {
        Some((names.len() - 1) as usize)
    } else {
        last_named(names.drop_last(), name)
    }
}

/// The last place where a name stands in any case.
pub open spec fn last_lowered(names: Seq<Seq<char>>, low: Seq<char>) -> Option<usize>
    decreases names.len(),
{
    if names.len() == 0 {
        None
    } else if lowercase(names.last()) == low {
        Some((names.len() - 1) as usize)
    } else {
        last_lowered(names.drop_last(), low)
    }
}

/// The node that a note's name means: the name as it is, else in any case.
pub open spec fn meant(names: Seq<Seq<char>>, note: Seq<char>) -> Option<usize> {
    match last_named(names, bare_name(note)) {
        Some(i) => Some(i),
        None => last_lowered(names, lowercase(bare_name(note))),
    }
}

// ---------------------------------------------------------------------------
// Pairs
// ---------------------------------------------------------------------------

/// The node at `i` of a walk with the nodes at places from `from` to before `j`,
/// without itself.
pub open spec fn pairs_until(walk: Seq<usize>, i: int, from: int, j: int) -> Seq<(usize, usize)>
    decreases j - from,
{
    if j <= from {
        Seq::empty()
    } else {
        let some = pairs_until(walk, i, from, j - 1);
        if j - 1 == i {
            some
        } else {
            some.push((walk[i], walk[j - 1]))
        }
    }
}

/// Where the window round a place begins.
pub open spec fn window_start(i: int, window: int) -> int {
    if i < window {
        0
    } else {
        i - window
    }
}

/// Where the window round a place ends.
pub open spec fn window_end(i: int, window: int, len: int) -> int {
    if i + window + 1 < len {
        i + window + 1
    } else {
        len
    }
}

/// The pairs of the first `n` nodes of a walk with the nodes near them.
pub open spec fn pairs_of_first(walk: Seq<usize>, window: int, n: int) -> Seq<(usize, usize)>
    decreases n,
{
    if n <= 0 {
        Seq::empty()
    } else {
        pairs_of_first(walk, window, n - 1) + pairs_until(
            walk,
            n - 1,
            window_start(n - 1, window),
            window_end(n - 1, window, walk.len() as int),
        )
    }
}

/// Every node of a walk with every node not more than the window away.
pub open spec fn pairs_of(walk: Seq<usize>, window: int) -> Seq<(usize, usize)> {
    pairs_of_first(walk, window, walk.len() as int)
}

/// How many pairs the walks give.
pub open spec fn pair_total(walks: Seq<Seq<usize>>, window: int) -> nat
    decreases walks.len(),
{
    if walks.len() == 0 {
        0
    } else {
        pair_total(walks.drop_last(), window) + pairs_of(walks.last(), window).len()
    }
}

/// The pairs to learn from in a walk, in order.
pub fn context_pairs(walk: &Vec<usize>, window: usize) -> (r: Vec<(usize, usize)>)
    ensures
        r@ == pairs_of(walk@, window as int),
{
    let mut r: Vec<(usize, usize)> = Vec::new();
    let len: usize = walk.len();
    let mut i: usize = 0;
    while i < len
        invariant
            len == walk@.len(),
            i <= len,
            r@ == pairs_of_first(walk@, window as int, i as int),
        decreases len - i,
    {
        let start: usize = if i < window {
            0
        } else {
            i - window
        };
        let end: usize = if window < len - i - 1 {
            i + window + 1
        } else {
            len
        };
        let ghost before = r@;
        let mut j: usize = start;
        assert(before + pairs_until(walk@, i as int, start as int, j as int) =~= before);
        while j < end
            invariant
                len == walk@.len(),
                i < len,
                start <= j <= end,
                end <= len,
                r@ == before + pairs_until(walk@, i as int, start as int, j as int),
            decreases end - j,
        {
            if i != j {
                r.push((walk[i], walk[j]));
            }
            j += 1;
            assert(r@ =~= before + pairs_until(walk@, i as int, start as int, j as int));
        }
        i += 1;
    }
    r
}

proof fn lemma_plain_push(walks: Seq<Vec<usize>>, k: int)
    requires
        0 <= k < walks.len(),
    ensures
        plain_walks(walks).take(k + 1).drop_last() == plain_walks(walks).take(k),
        plain_walks(walks).take(k + 1).last() == walks[k]@,
{
    assert(plain_walks(walks).take(k + 1).drop_last() =~= plain_walks(walks).take(k));
}

/// How many pairs there are to learn from in all walks.
pub fn count_pairs(walks: &Vec<Vec<usize>>, window: usize) -> (r: u128)
    ensures
        r == pair_total(plain_walks(walks@), window as int),
{
    let ghost all = plain_walks(walks@);
    let mut r: u128 = 0;
    let mut k: usize = 0;
    assert(all.take(0) =~= Seq::empty());
    while k < walks.len()
        invariant
            k <= walks@.len(),
            all == plain_walks(walks@),
            r == pair_total(all.take(k as int), window as int),
            r <= k * 0xffff_ffff_ffff_ffff,
        decreases walks@.len() - k,
    {
        let pairs = context_pairs(&walks[k], window);
        let n: usize = pairs.len();
        proof {
            lemma_plain_push(walks@, k as int);
            let a = k as int;
            assert(a * 0xffff_ffff_ffff_ffffint + 0xffff_ffff_ffff_ffffint == (a + 1)
                * 0xffff_ffff_ffff_ffffint) by (nonlinear_arith);
            assert((a + 1) * 0xffff_ffff_ffff_ffffint
                <= 0x1_0000_0000_0000_0000int * 0xffff_ffff_ffff_ffffint) by (nonlinear_arith)
                requires
                    0 <= a + 1 <= 0x1_0000_0000_0000_0000int,
            ;
        }
        r = r + n as u128;
        k += 1;
    }
    assert(all.take(k as int) =~= all);
    r
}

// ---------------------------------------------------------------------------
// How often nodes occur
// ---------------------------------------------------------------------------

/// How often a node occurs in a walk.
pub open spec fn times_in(walk: Seq<usize>, x: usize) -> nat
    decreases walk.len(),
{
    if walk.len() == 0 {
        0
    } else {
        times_in(walk.drop_last(), x) + if walk.last() == x {
            1nat
        } else {
            0
        }
    }
}

/// How often a node occurs in all walks.
pub open spec fn times_in_all(walks: Seq<Seq<usize>>, x: usize) -> nat
    decreases walks.len(),
{
    if walks.len() == 0 {
        0
    } else {
        times_in_all(walks.drop_last(), x) + times_in(walks.last(), x)
    }
}

/// How long the walks are together.
pub open spec fn length_of_all(walks: Seq<Seq<usize>>) -> nat
    decreases walks.len(),
{
    if walks.len() == 0 {
        0
    } else {
        length_of_all(walks.drop_last()) + walks.last().len()
    }
}

proof fn lemma_length_rises(walks: Seq<Seq<usize>>, k: int)
    requires
        0 <= k <= walks.len(),
    ensures
        length_of_all(walks.take(k)) <= length_of_all(walks),
    decreases walks.len(),
{
    if k < walks.len() {
        lemma_length_rises(walks.drop_last(), k);
        assert(walks.drop_last().take(k) =~= walks.take(k));
    } else {
        assert(walks.take(k) =~= walks);
    }
}

/// How often each of `n` nodes occurs in the walks.
pub fn occurrences(walks: &Vec<Vec<usize>>, n: usize) -> (r: Vec<usize>)
    requires
        length_of_all(plain_walks(walks@)) <= usize::MAX,
    ensures
        r@.len() == n,
        forall|x: usize|
            x < n ==> #[trigger] r@[x as int] == times_in_all(plain_walks(walks@), x),
{
    let ghost all = plain_walks(walks@);
    let mut r: Vec<usize> = Vec::new();
    let mut i: usize = 0;
    while i < n
        invariant
            i <= n,
            r@.len() == i,
            forall|j: int| 0 <= j < i ==> #[trigger] r@[j] == 0,
        decreases n - i,
    {
        r.push(0);
        i += 1;
    }
    let mut k: usize = 0;
    assert(all.take(0) =~= Seq::empty());
    while k < walks.len()
        invariant
            k <= walks@.len(),
            all == plain_walks(walks@),
            length_of_all(all) <= usize::MAX,
            r@.len() == n,
            forall|x: usize|
                x < n ==> #[trigger] r@[x as int] == times_in_all(all.take(k as int), x),
            forall|x: usize|
                x < n ==> #[trigger] r@[x as int] <= length_of_all(all.take(k as int)),
        decreases walks@.len() - k,
    {
        let walk = &walks[k];
        let ghost before = all.take(k as int);
        proof {
            lemma_plain_push(walks@, k as int);
            lemma_length_rises(all, k + 1);
        }
        let mut j: usize = 0;
        assert(walk@.take(0) =~= Seq::empty());
        while j < walk.len()
            invariant
                j <= walk@.len(),
                r@.len() == n,
                length_of_all(before) + walk@.len() <= usize::MAX,
                forall|x: usize|
                    x < n ==> #[trigger] r@[x as int] == times_in_all(before, x) + times_in(
                        walk@.take(j as int),
                        x,
                    ),
                forall|x: usize| x < n ==> #[trigger] r@[x as int] <= length_of_all(before) + j,
            decreases walk@.len() - j,
        {
            assert(walk@.take(j + 1).drop_last() =~= walk@.take(j as int));
            let x: usize = walk[j];
            let ghost counts = r@;
            if x < n {
                let c: usize = r[x];
                assert(counts[x as int] <= length_of_all(before) + j);
                r.set(x, c + 1);
            }
            assert forall|y: usize| y < n implies #[trigger] r@[y as int] == times_in_all(before, y)
                + times_in(walk@.take(j + 1), y) by {
                assert(counts[y as int] == times_in_all(before, y) + times_in(
                    walk@.take(j as int),
                    y,
                ));
            }
            assert forall|y: usize| y < n implies #[trigger] r@[y as int] <= length_of_all(before)
                + j + 1 by {
                assert(counts[y as int] <= length_of_all(before) + j);
            }
            j += 1;
        }
        assert(walk@.take(j as int) =~= walk@);
        k += 1;
    }
    assert(all.take(k as int) =~= all);
    r
}

// ---------------------------------------------------------------------------
// The table of counterexamples
// ---------------------------------------------------------------------------

/// How large the table is for `n` nodes.
pub fn table_size(n: usize) -> (r: usize)
    requires
        n * 10 <= usize::MAX,
    ensures
        r == if n * 10 < 100_000 {
            100_000
        } else {
            n * 10
        },
{
    if n * 10 < 100_000 {
        100_000
    } else {
        n * 10
    }
}

/// `count` times the node.
pub open spec fn repeated(node: usize, count: nat) -> Seq<usize> {
    Seq::new(count, |i: int| node)
}

/// Each of the first `n` nodes as often as it has entries.
pub open spec fn laid_out(entries: Seq<usize>, n: int) -> Seq<usize>
    decreases n,
{
    if n <= 0 {
        Seq::empty()
    } else {
        laid_out(entries, n - 1) + repeated((n - 1) as usize, entries[n - 1] as nat)
    }
}

/// The table filled up with drawn nodes.
pub open spec fn filled_up(table: Seq<usize>, size: nat, n: nat, s: RngState) -> (
    Seq<usize>,
    RngState,
)
    decreases size - table.len(),
{
    if table.len() >= size {
        (table, s)
    } else {
        let draw = s.below(n);
        filled_up(table.push(draw.0 as usize), size, n, draw.1)
    }
}

/// The table from which counterexamples are drawn: every node as often as it has
/// entries, and nodes at random where that leaves room.
pub fn negative_table(entries: &Vec<usize>, size: usize, rng: &mut FastRng) -> (r: Vec<usize>)
    ensures
        (r@, final(rng)@) == filled_up(
            laid_out(entries@, entries@.len() as int),
            size as nat,
            entries@.len(),
            old(rng)@,
        ),
{
    let mut table: Vec<usize> = Vec::new();
    let n: usize = entries.len();
    let mut node: usize = 0;
    while node < n
        invariant
            n == entries@.len(),
            node <= n,
            table@ == laid_out(entries@, node as int),
        decreases n - node,
    {
        let ghost before = table@;
        let mut k: usize = 0;
        assert(before + repeated(node, 0) =~= before);
        while k < entries[node]
            invariant
                node < n,
                n == entries@.len(),
                k <= entries@[node as int],
                table@ == before + repeated(node, k as nat),
            decreases entries@[node as int] - k,
        {
            table.push(node);
            k += 1;
            assert(table@ =~= before + repeated(node, k as nat));
        }
        node += 1;
    }
    let ghost laid = table@;
    let ghost s0 = rng@;
    while table.len() < size
        invariant
            n == entries@.len(),
            filled_up(table@, size as nat, n as nat, rng@) == filled_up(
                laid,
                size as nat,
                n as nat,
                s0,
            ),
        decreases size - table@.len(),
    {
        let x: usize = rng.gen_range(n);
        table.push(x);
    }
    table
}

// ---------------------------------------------------------------------------
// The model
// ---------------------------------------------------------------------------

/// How walks are taken and learnt from.
#[derive(Debug, Clone, Copy)]
pub struct Node2VecConfig {
    /// How little walks go back, in millionths.
    pub p: u64,
    /// How little walks go outward, in millionths.
    pub q: u64,
    pub dimensions: usize,
    pub walk_length: usize,
    pub walks_per_node: usize,
    pub window_size: usize,
    pub negative_samples: usize,
    pub epochs: usize,
    pub seed: Option<u64>,
}

impl Default for Node2VecConfig {
    fn default() -> (r: Node2VecConfig)
        ensures
            r == (Node2VecConfig {
                p: 1_000_000,
                q: 1_000_000,
                dimensions: 32,
                walk_length: 20,
                walks_per_node: 10,
                window_size: 3,
                negative_samples: 5,
                epochs: 5,
                seed: None,
            }),
    {
        Node2VecConfig {
            p: 1_000_000,
            q: 1_000_000,
            dimensions: 32,
            walk_length: 20,
            walks_per_node: 10,
            window_size: 3,
            negative_samples: 5,
            epochs: 5,
            seed: None,
        }
    }
}

/// The notes and their neighbourhoods.
pub struct Node2Vec {
    config: Node2VecConfig,
    node_names: Vec<String>,
    neighbors: Vec<Vec<(usize, u64)>>,
}

/// The names of the nodes of a graph.
pub open spec fn titles(g: GraphModel) -> Seq<Seq<char>> {
    Seq::new(g.nodes.len(), |i: int| g.nodes[i].title)
}

proof fn lemma_total_bound(edges: Seq<(usize, usize, u64)>, most: nat)
    requires
        most >= LEAST_WEIGHT,
        forall|e: int| 0 <= e < edges.len() ==> (#[trigger] edges[e]).2 <= most,
    ensures
        total_weight(edges) <= edges.len() * most,
    decreases edges.len(),
{
    if edges.len() > 0 {
        let rest = edges.drop_last();
        assert forall|e: int| 0 <= e < rest.len() implies (#[trigger] rest[e]).2 <= most by {
            assert(edges[e].2 <= most);
        }
        lemma_total_bound(rest, most);
        assert(edges[edges.len() - 1].2 <= most);
        assert(rest.len() * most + most == edges.len() * most) by (nonlinear_arith)
            requires
                rest.len() == edges.len() - 1,
        ;
    } else {
        assert(edges.len() * most == 0) by (nonlinear_arith)
            requires
                edges.len() == 0,
        ;
    }
}

/// Names with similarities, the most similar first.
pub open spec fn more_similar(a: (Seq<char>, u32), b: (Seq<char>, u32)) -> bool {
    a.1 > b.1
}

fn similar_less(a: &(String, u32), b: &(String, u32)) -> (r: bool)
    ensures
        r == more_similar(a@, b@),
{
    a.1 > b.1
}

/// The first `n` nodes but for one, with their similarities.
pub open spec fn all_but(
    names: Seq<Seq<char>>,
    similarities: Seq<u32>,
    target: int,
    n: int,
) -> Seq<(Seq<char>, u32)>
    decreases n,
{
    if n <= 0 {
        Seq::empty()
    } else if n - 1 == target || n > similarities.len() {
        all_but(names, similarities, target, n - 1)
    } else {
        all_but(names, similarities, target, n - 1).push((names[n - 1], similarities[n - 1]))
    }
}

/// The `k` nodes most similar to a node.
pub open spec fn most_similar(
    names: Seq<Seq<char>>,
    similarities: Seq<u32>,
    target: int,
    k: nat,
) -> Seq<(Seq<char>, u32)> {
    let ranked = sorted_by(
        all_but(names, similarities, target, names.len() as int),
        |a: (Seq<char>, u32), b: (Seq<char>, u32)| more_similar(a, b),
    );
    if ranked.len() < k {
        ranked
    } else {
        ranked.take(k as int)
    }
}

impl Node2Vec {
    /// The names of the nodes.
    pub closed spec fn names(&self) -> Seq<Seq<char>> {
        views(self.node_names@)
    }

    /// The neighbourhoods.
    pub closed spec fn rows(&self) -> Seq<Vec<(usize, u64)>> {
        self.neighbors@
    }

    /// The configuration.
    pub closed spec fn plan(&self) -> Node2VecConfig {
        self.config
    }

    /// Every node has a neighbourhood.
    #[verifier::type_invariant]
    closed spec fn inv(&self) -> bool {
        &&& self.neighbors@.len() == self.node_names@.len()
        &&& rows_sound(self.neighbors@)
    }

    /// A model without nodes.
    pub fn new(config: Node2VecConfig) -> (r: Node2Vec)
        ensures
            r.plan() == config,
            r.names().len() == 0,
            r.rows().len() == 0,
    {
        Node2Vec { config, node_names: Vec::new(), neighbors: Vec::new() }
    }

    /// The model of named nodes and links between them, with weights in millionths.
    pub fn from_edges(
        nodes: Vec<String>,
        edges: &Vec<(usize, usize, u64)>,
        config: Node2VecConfig,
    ) -> (r: Node2Vec)
        requires
            total_weight(edges@) <= u64::MAX,
        ensures
            r.plan() == config,
            r.names() == views(nodes@),
            r.rows().len() == nodes@.len(),
            rows_sound(r.rows()),
            forall|u: int, v: int|
                0 <= u < nodes@.len() ==> #[trigger] weight_in(r.rows()[u]@, v) == pair_weight(
                    edges@,
                    nodes@.len() as int,
                    u,
                    v,
                ),
    {
        let neighbors = gather(nodes.len(), edges);
        Node2Vec { config, node_names: nodes, neighbors }
    }

    /// The model of the notes of a graph.
    pub fn from_knowledge_graph(kg: &KnowledgeGraph, config: Node2VecConfig) -> (r: Node2Vec)
        requires
            kg.wf(),
        ensures
            r.plan() == config,
            r.names() == titles(kg@),
            r.rows().len() == kg@.nodes.len(),
            rows_sound(r.rows()),
            forall|u: int, v: int|
                0 <= u < kg@.nodes.len() ==> #[trigger] weight_in(r.rows()[u]@, v) == pair_weight(
                    weighted_ends(kg@),
                    kg@.nodes.len() as int,
                    u,
                    v,
                ),
    {
        broadcast use group_views;

        let n: usize = kg.node_count();
        let ghost want = titles(kg@);
        let mut names: Vec<String> = Vec::new();
        let mut i: usize = 0;
        while i < n
            invariant
                i <= n,
                n == kg@.nodes.len(),
                want == titles(kg@),
                views(names@) == want.take(i as int),
            decreases n - i,
        {
            names.push(kg.node(i).title.clone());
            i += 1;
            assert(want.take(i as int) =~= want.take(i - 1).push(want[i - 1]));
        }
        assert(want.take(i as int) =~= want);
        let edges = kg.weighted_edges();
        proof {
            kg.lemma_wf();
            assert forall|e: int| 0 <= e < edges@.len() implies (#[trigger] edges@[e]).2 <= 2_000_000 by {
                assert(kg@.edges[e].weight <= 20);
            }
            lemma_total_bound(edges@, 2_000_000);
            assert(views(names@).len() == names@.len());
        }
        Node2Vec::from_edges(names, &edges, config)
    }

    /// The model of named nodes whose vectors are known: no links.
    pub fn from_embeddings(names: Vec<String>, config: Node2VecConfig) -> (r: Node2Vec)
        ensures
            r.plan() == config,
            r.names() == views(names@),
            r.rows().len() == names@.len(),
            forall|u: int| 0 <= u < names@.len() ==> (#[trigger] r.rows()[u])@.len() == 0,
    {
        let mut rows: Vec<Vec<(usize, u64)>> = Vec::new();
        let mut i: usize = 0;
        while i < names.len()
            invariant
                i <= names@.len(),
                rows@.len() == i,
                forall|u: int| 0 <= u < i ==> (#[trigger] rows@[u])@.len() == 0,
            decreases names@.len() - i,
        {
            rows.push(Vec::new());
            i += 1;
        }
        Node2Vec { config, node_names: names, neighbors: rows }
    }

    /// How many nodes there are.
    pub fn node_count(&self) -> (r: usize)
        ensures
            r == self.names().len(),
            r == self.rows().len(),
    {
        proof {
            use_type_invariant(self);
        }
        self.node_names.len()
    }

    /// The configuration.
    pub fn config(&self) -> (r: &Node2VecConfig)
        ensures
            *r == self.plan(),
    {
        &self.config
    }

    /// The names of the nodes.
    pub fn node_names(&self) -> (r: &Vec<String>)
        ensures
            views(r@) == self.names(),
    {
        &self.node_names
    }

    /// The node that a note's name means.
    pub fn find(&self, note: &str) -> (r: Option<usize>)
        ensures
            r == meant(self.names(), note@),
            r is Some ==> r->0 < self.names().len(),
    {
        broadcast use group_views;

        let ghost all = views(self.node_names@);
        let name = strip_name(note);
        let mut i: usize = self.node_names.len();
        assert(all.take(all.len() as int) =~= all);
        while i > 0
            invariant
                i <= self.node_names@.len(),
                all == views(self.node_names@),
                name@ == bare_name(note@),
                last_named(all, name@) == last_named(all.take(i as int), name@),
            decreases i,
        {
            let ghost part = all.take(i as int);
            i -= 1;
            assert(part.drop_last() =~= all.take(i as int));
            assert(part.last() == self.node_names@[i as int]@);
            if same(self.node_names[i].as_str(), name.as_str()) {
                return Some(i);
            }
        }
        let low = to_lowercase(name.as_str());
        i = self.node_names.len();
        while i > 0
            invariant
                i <= self.node_names@.len(),
                all == views(self.node_names@),
                name@ == bare_name(note@),
                last_named(all, name@) is None,
                low@ == lowercase(name@),
                last_lowered(all, low@) == last_lowered(all.take(i as int), low@),
            decreases i,
        {
            let ghost part = all.take(i as int);
            i -= 1;
            assert(part.drop_last() =~= all.take(i as int));
            assert(part.last() == self.node_names@[i as int]@);
            let this = to_lowercase(self.node_names[i].as_str());
            if same(this.as_str(), low.as_str()) {
                return Some(i);
            }
        }
        None
    }

    /// A walk from a node.
    pub fn node2vec_walk(&self, start_node: usize, rng: &mut FastRng) -> (r: Vec<usize>)
        requires
            start_node < self.rows().len(),
        ensures
            (r@, final(rng)@) == walked(
                plain(self.rows()),
                WalkPlan {
                    p: self.plan().p,
                    q: self.plan().q,
                    length: self.plan().walk_length as nat,
                },
                start_node,
                old(rng)@,
            ),
    {
        proof {
            use_type_invariant(self);
        }
        node2vec_walk(
            &self.neighbors,
            self.config.p,
            self.config.q,
            self.config.walk_length,
            start_node,
            rng,
        )
    }

    /// The walks to learn from.
    pub fn generate_walks(&self, rng: &mut FastRng) -> (r: Vec<Vec<usize>>)
        ensures
            self.rows().len() == 0 ==> r@.len() == 0 && final(rng)@ == old(rng)@,
            self.rows().len() > 0 ==> {
                let want = rounds(
                    plain(self.rows()),
                    WalkPlan {
                        p: self.plan().p,
                        q: self.plan().q,
                        length: self.plan().walk_length as nat,
                    },
                    self.plan().walks_per_node as nat,
                    old(rng)@,
                );
                plain_walks(r@) == want.walks && final(rng)@ == want.state
            },
            forall|i: int, k: int|
                0 <= i < r@.len() && 0 <= k < r@[i]@.len() ==> #[trigger] r@[i]@[k]
                    < self.rows().len(),
    {
        proof {
            use_type_invariant(self);
        }
        generate_walks(
            &self.neighbors,
            self.config.p,
            self.config.q,
            self.config.walk_length,
            self.config.walks_per_node,
            rng,
        )
    }

    /// The `k` notes most like a note, by the similarity of every node to it; none
    /// where the name means no node or the node has no similarity.
    pub fn most_topologically_similar(
        &self,
        note: &str,
        similarities: &Vec<u32>,
        k: usize,
    ) -> (r: Vec<(String, u32)>)
        ensures
            match meant(self.names(), note@) {
                Some(target) if target < similarities@.len() => views(r@) == most_similar(
                    self.names(),
                    similarities@,
                    target as int,
                    k as nat,
                ),
                _ => r@.len() == 0,
            },
    {
        broadcast use group_views;

        let target: usize = match self.find(note) {
            Some(i) => i,
            None => return Vec::new(),
        };
        if target >= similarities.len() {
            return Vec::new();
        }
        let ghost names = self.names();
        let mut out: Vec<(String, u32)> = Vec::new();
        let mut i: usize = 0;
        while i < self.node_names.len()
            invariant
                i <= self.node_names@.len(),
                names == views(self.node_names@),
                views(out@) == all_but(names, similarities@, target as int, i as int),
            decreases self.node_names@.len() - i,
        {
            assert(names[i as int] == self.node_names@[i as int]@);
            if i != target && i < similarities.len() {
                out.push((self.node_names[i].clone(), similarities[i]));
            }
            i += 1;
        }
        let ghost lt = |a: (String, u32), b: (String, u32)| more_similar(a@, b@);
        let ghost lt_view = |a: (Seq<char>, u32), b: (Seq<char>, u32)| more_similar(a, b);
        proof {
            lemma_sorted_views(out@, lt, lt_view);
        }
        let mut sorted = sort_by(out, similar_less, Ghost(lt));
        let ghost ranked = sorted@;
        if sorted.len() > k {
            sorted.truncate(k);
        }
        proof {
            if ranked.len() >= k {
                assert(sorted@ =~= ranked.take(k as int));
                assert(views(ranked.take(k as int)) =~= views(ranked).take(k as int));
            }
        }
        sorted
    }
}

// ---------------------------------------------------------------------------
// What holds of names, pairs and likeness
// ---------------------------------------------------------------------------

/// A note may be named as a link, and with white space around it.
pub proof fn names_may_be_given_as_links(name: Seq<char>)
    requires
        name.len() > 0,
        name[0] != '[',
        name[name.len() - 1] != ']',
    ensures
        bare_name(seq!['[', '['] + name + seq![']', ']']) == name,
        trim(name) == name ==> bare_name(name) == name,
{
    let s = seq!['[', '['] + name + seq![']', ']'];
    let (a, b) = crate::text::trimming_takes_white_space_off(s);
    assert(a == 0) by {
        if a > 0 {
            assert(crate::text::is_white(s[0]));
        }
    }
    assert(b == s.len()) by {
        if b < s.len() {
            assert(crate::text::is_white(s[s.len() - 1]));
        }
    }
    assert(trim(s) =~= s);
    let open = s.skip(2);
    assert(open =~= name + seq![']', ']']);
    assert(without_opening(open) == open);
    assert(without_opening(s) == open);
    let shut = open.take(open.len() - 2);
    assert(shut =~= name);
    assert(without_closing(name) == name);
    assert(without_closing(open) == name);
}

/// A name means the last node that has it; where none has it as it is, the last that has
/// it in any case.
pub proof fn name_means_the_last_that_has_it(names: Seq<Seq<char>>, note: Seq<char>)
    requires
        names.len() <= usize::MAX,
    ensures
        ({
            let name = bare_name(note);
            let low = lowercase(name);
            match meant(names, note) {
                Some(i) => {
                    &&& i < names.len()
                    &&& names.contains(name) ==> names[i as int] == name && forall|j: int|
                        i < j < names.len() ==> #[trigger] names[j] != name
                    &&& !names.contains(name) ==> lowercase(names[i as int]) == low && forall|j: int|
                        i < j < names.len() ==> lowercase(#[trigger] names[j]) != low
                },
                None => !names.contains(name) && forall|j: int|
                    0 <= j < names.len() ==> lowercase(#[trigger] names[j]) != low,
            }
        }),
{
    lemma_last_named(names, bare_name(note));
    lemma_last_lowered(names, lowercase(bare_name(note)));
}

proof fn lemma_last_named(names: Seq<Seq<char>>, name: Seq<char>)
    requires
        names.len() <= usize::MAX,
    ensures
        match last_named(names, name) {
            Some(i) => i < names.len() && names[i as int] == name && forall|j: int|
                i < j < names.len() ==> #[trigger] names[j] != name,
            None => !names.contains(name),
        },
    decreases names.len(),
{
    if names.len() > 0 {
        let rest = names.drop_last();
        lemma_last_named(rest, name);
        if names.last() != name {
            assert forall|j: int| 0 <= j < names.len() implies #[trigger] names[j] == (if j
                < rest.len() {
                rest[j]
            } else {
                names.last()
            }) by {}
        }
    }
}

proof fn lemma_last_lowered(names: Seq<Seq<char>>, low: Seq<char>)
    requires
        names.len() <= usize::MAX,
    ensures
        match last_lowered(names, low) {
            Some(i) => i < names.len() && lowercase(names[i as int]) == low && forall|j: int|
                i < j < names.len() ==> lowercase(#[trigger] names[j]) != low,
            None => forall|j: int| 0 <= j < names.len() ==> lowercase(#[trigger] names[j]) != low,
        },
    decreases names.len(),
{
    if names.len() > 0 {
        let rest = names.drop_last();
        lemma_last_lowered(rest, low);
        if lowercase(names.last()) != low {
            assert forall|j: int| 0 <= j < names.len() implies #[trigger] names[j] == (if j
                < rest.len() {
                rest[j]
            } else {
                names.last()
            }) by {}
        }
    }
}

/// Whether a pair is of two places of a walk that are no more than the window apart.
pub open spec fn is_near_pair(walk: Seq<usize>, window: int, n: int, x: (usize, usize)) -> bool {
    exists|i: int, j: int| #[trigger]
        are_near(walk, window, i, j) && i < n && x == (walk[i], walk[j])
}

/// Whether two places of a walk are no more than the window apart, and not the same.
pub open spec fn are_near(walk: Seq<usize>, window: int, i: int, j: int) -> bool {
    0 <= i < walk.len() && 0 <= j < walk.len() && i != j && i - window <= j <= i + window
}

proof fn lemma_pairs_until(walk: Seq<usize>, i: int, from: int, j: int)
    requires
        0 <= from <= j <= walk.len(),
        0 <= i < walk.len(),
    ensures
        pairs_until(walk, i, from, j).len() == j - from - (if from <= i < j {
            1int
        } else {
            0
        }),
        forall|k: int|
            0 <= k < pairs_until(walk, i, from, j).len() ==> exists|q: int|
                from <= q < j && q != i && #[trigger] pairs_until(walk, i, from, j)[k] == (
                    walk[i],
                    #[trigger] walk[q],
                ),
        forall|q: int|
            from <= q < j && q != i ==> pairs_until(walk, i, from, j).contains(
                (walk[i], #[trigger] walk[q]),
            ),
    decreases j - from,
{
    if j > from {
        lemma_pairs_until(walk, i, from, j - 1);
        let before = pairs_until(walk, i, from, j - 1);
        let r = pairs_until(walk, i, from, j);
        assert forall|k: int| 0 <= k < r.len() implies exists|q: int|
            from <= q < j && q != i && #[trigger] r[k] == (walk[i], #[trigger] walk[q]) by {
            if k < before.len() {
                assert(r[k] == before[k]);
                let q = choose|q: int|
                    from <= q < j - 1 && q != i && before[k] == (walk[i], #[trigger] walk[q]);
                assert(r[k] == (walk[i], walk[q]));
            } else {
                assert(r[k] == (walk[i], walk[j - 1]));
            }
        }
        assert forall|q: int| from <= q < j && q != i implies r.contains(
            (walk[i], #[trigger] walk[q]),
        ) by {
            if q < j - 1 {
                assert(before.contains((walk[i], walk[q])));
                let k = choose|k: int| 0 <= k < before.len() && before[k] == (walk[i], walk[q]);
                assert(r[k] == before[k]);
            } else {
                assert(r[before.len() as int] == (walk[i], walk[q]));
            }
        }
    }
}

/// The pairs of a walk are those of each of its places with every other that is no more
/// than the window away.
pub proof fn pairs_are_of_near_places(walk: Seq<usize>, window: int, n: int)
    requires
        0 <= n <= walk.len(),
        0 <= window,
    ensures
        forall|k: int|
            0 <= k < pairs_of_first(walk, window, n).len() ==> is_near_pair(
                walk,
                window,
                n,
                #[trigger] pairs_of_first(walk, window, n)[k],
            ),
        forall|i: int, j: int|
            i < n && #[trigger] are_near(walk, window, i, j) ==> pairs_of_first(
                walk,
                window,
                n,
            ).contains((walk[i], walk[j])),
    decreases n,
{
    if n > 0 {
        pairs_are_of_near_places(walk, window, n - 1);
        let at = n - 1;
        let (from, upto) = (window_start(at, window), window_end(at, window, walk.len() as int));
        lemma_pairs_until(walk, at, from, upto);
        let before = pairs_of_first(walk, window, at);
        let more = pairs_until(walk, at, from, upto);
        let r = pairs_of_first(walk, window, n);
        assert forall|k: int| 0 <= k < r.len() implies is_near_pair(walk, window, n, #[trigger] r[k]) by {
            if k < before.len() {
                assert(r[k] == before[k]);
                assert(is_near_pair(walk, window, at, before[k]));
                let (i, j) = choose|i: int, j: int| #[trigger]
                    are_near(walk, window, i, j) && i < at && before[k] == (walk[i], walk[j]);
                assert(are_near(walk, window, i, j));
            } else {
                assert(r[k] == more[k - before.len()]);
                let q = choose|q: int|
                    from <= q < upto && q != at && more[k - before.len()] == (
                        walk[at],
                        #[trigger] walk[q],
                    );
                assert(are_near(walk, window, at, q));
            }
        }
        assert forall|i: int, j: int|
            i < n && #[trigger] are_near(walk, window, i, j) implies r.contains(
            (walk[i], walk[j]),
        ) by {
            if i < at {
                assert(before.contains((walk[i], walk[j])));
                let k = choose|k: int| 0 <= k < before.len() && before[k] == (walk[i], walk[j]);
                assert(r[k] == before[k]);
            } else {
                assert(more.contains((walk[i], walk[j])));
                let k = choose|k: int| 0 <= k < more.len() && more[k] == (walk[i], walk[j]);
                assert(r[before.len() + k] == more[k]);
            }
        }
    }
}

/// A node occurs in a walk as often as it stands there.
pub proof fn occurrences_are_counted(walk: Seq<usize>, x: usize)
    ensures
        times_in(walk, x) == walk.filter(|y: usize| y == x).len(),
    decreases walk.len(),
{
    reveal(Seq::filter);
    if walk.len() > 0 {
        occurrences_are_counted(walk.drop_last(), x);
    }
}

/// Whether this is one of the first `n` nodes but for the target, with its similarity.
pub open spec fn is_other(
    names: Seq<Seq<char>>,
    similarities: Seq<u32>,
    target: int,
    n: int,
    x: (Seq<char>, u32),
) -> bool {
    exists|i: int|
        0 <= i < n && i < similarities.len() && i != target && x == (
            #[trigger] names[i],
            similarities[i],
        )
}

proof fn lemma_all_but(names: Seq<Seq<char>>, similarities: Seq<u32>, target: int, n: int)
    requires
        0 <= n <= names.len(),
    ensures
        forall|i: int|
            0 <= i < n && i < similarities.len() && i != target ==> all_but(
                names,
                similarities,
                target,
                n,
            ).contains((#[trigger] names[i], similarities[i])),
        forall|k: int|
            0 <= k < all_but(names, similarities, target, n).len() ==> is_other(
                names,
                similarities,
                target,
                n,
                #[trigger] all_but(names, similarities, target, n)[k],
            ),
    decreases n,
{
    if n > 0 {
        lemma_all_but(names, similarities, target, n - 1);
        let before = all_but(names, similarities, target, n - 1);
        let r = all_but(names, similarities, target, n);
        assert forall|i: int|
            0 <= i < n && i < similarities.len() && i != target implies r.contains(
            (#[trigger] names[i], similarities[i]),
        ) by {
            if i < n - 1 {
                assert(before.contains((names[i], similarities[i])));
                let k = choose|k: int|
                    0 <= k < before.len() && before[k] == (names[i], similarities[i]);
                assert(r[k] == before[k]);
            } else {
                assert(r[before.len() as int] == (names[i], similarities[i]));
            }
        }
        assert forall|k: int| 0 <= k < r.len() implies is_other(
            names,
            similarities,
            target,
            n,
            #[trigger] r[k],
        ) by {
            if k < before.len() {
                assert(r[k] == before[k]);
                assert(is_other(names, similarities, target, n - 1, before[k]));
                let i = choose|i: int|
                    0 <= i < n - 1 && i < similarities.len() && i != target && before[k] == (
                        #[trigger] names[i],
                        similarities[i],
                    );
                assert(r[k] == (names[i], similarities[i]));
            } else {
                assert(r[k] == (names[n - 1], similarities[n - 1]));
            }
        }
    }
}

/// The notes most like a note come with falling similarity, never the note itself; there
/// are as many as asked for or all there are, and none that is left out is more like it.
pub proof fn most_like_come_first(
    names: Seq<Seq<char>>,
    similarities: Seq<u32>,
    target: int,
    k: nat,
)
    ensures
        ({
            let r = most_similar(names, similarities, target, k);
            &&& r.len() <= k
            &&& forall|i: int, j: int|
                0 <= i < j < r.len() ==> (#[trigger] r[i]).1 >= (#[trigger] r[j]).1
            &&& forall|q: int|
                0 <= q < r.len() ==> is_other(
                    names,
                    similarities,
                    target,
                    names.len() as int,
                    #[trigger] r[q],
                )
            &&& forall|i: int|
                0 <= i < names.len() && i < similarities.len() && i != target ==> r.contains(
                    (#[trigger] names[i], similarities[i]),
                ) || (r.len() == k && forall|q: int|
                    0 <= q < r.len() ==> (#[trigger] r[q]).1 >= similarities[i])
        }),
{
    let lt = |a: (Seq<char>, u32), b: (Seq<char>, u32)| more_similar(a, b);
    let all = all_but(names, similarities, target, names.len() as int);
    let r = most_similar(names, similarities, target, k);
    lemma_all_but(names, similarities, target, names.len() as int);
    assert(crate::sorting::is_weak_order(lt));
    crate::sorting::first_sorted_are_the_least(all, lt, k);
    crate::sorting::sorted_keeps_items(all, lt);
    assert(r =~= crate::trails::first_of(sorted_by(all, lt), k));
    assert forall|i: int, j: int| 0 <= i < j < r.len() implies (#[trigger] r[i]).1 >= (
    #[trigger] r[j]).1 by {
        assert(!lt(r[j], r[i]));
    }
    assert forall|q: int| 0 <= q < r.len() implies is_other(
        names,
        similarities,
        target,
        names.len() as int,
        #[trigger] r[q],
    ) by {
        assert(all.contains(r[q]));
        let s = choose|s: int| 0 <= s < all.len() && all[s] == r[q];
        assert(is_other(names, similarities, target, names.len() as int, all[s]));
    }
    assert forall|i: int|
        0 <= i < names.len() && i < similarities.len() && i != target implies r.contains(
        (#[trigger] names[i], similarities[i]),
    ) || (r.len() == k && forall|q: int|
        0 <= q < r.len() ==> (#[trigger] r[q]).1 >= similarities[i]) by {
        let x = (names[i], similarities[i]);
        assert(all.contains(x));
        let s = choose|s: int| 0 <= s < all.len() && all[s] == x;
        if !r.contains(x) {
            assert(!r.contains(all[s]));
            assert forall|q: int| 0 <= q < r.len() implies (#[trigger] r[q]).1 >= similarities[i] by {
                assert(!lt(all[s], r[q]));
            }
        }
    }
}

/// In the table every node stands as often as it has entries.
pub proof fn nodes_stand_as_often_as_they_have_entries(entries: Seq<usize>, n: int, x: usize)
    requires
        0 <= n <= entries.len() <= usize::MAX,
    ensures
        laid_out(entries, n).filter(|y: usize| y == x).len() == (if x < n {
            entries[x as int] as int
        } else {
            0
        }),
    decreases n,
{
    let p = |y: usize| y == x;
    if n == 0 {
        reveal(Seq::filter);
    } else {
        nodes_stand_as_often_as_they_have_entries(entries, n - 1, x);
        let more = repeated((n - 1) as usize, entries[n - 1] as nat);
        Seq::filter_distributes_over_add(laid_out(entries, n - 1), more, p);
        if x == (n - 1) as usize {
            crate::picking::lemma_pick_all(more, p);
        } else {
            crate::picking::lemma_pick_none(more, p);
        }
    }
}

} // verus!
