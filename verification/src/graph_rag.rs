//! Context extraction: the ways and trees that connect seed concepts, and the
//! text that tells of them.

use crate::graph::{Rank, RankModel};
use crate::rag_graph::{backlink, GraphRagEngine, RagEdgeModel, RagModel};
use crate::sorting::{
    in_order, is_weak_order, lemma_sorted_members, lemma_sorted_views, sort_by, sorted_by,
    sorted_is_in_order,
};
use crate::steiner::{
    chain_nodes, chain_weight, connects, grow_tree, is_exhausted, is_growth, joined, left_after,
    step_edges, tree_holds_what_it_reaches,
};
use crate::text::{
    chars_of, clone_opt, clone_strings, contains_str, decimal, group_views, holds_str, join, lowercase, occurs_at,
    opt_view, push_decimal, same, str_ends_with, str_join, str_range, str_starts_with, str_trim,
    str_trim_start_char, to_decimal, to_lowercase, trim, trim_start_char, views,
};
use crate::trails::{
    at_least_one, collect_trails, collected, every_trail_is_collected, every_way_out_is_collected,
    first_of, lemma_first_of, lemma_trail_bounded, only_trails_are_collected, Trail, TrailModel,
};
use crate::typo::{eq_ignore_ascii_case, same_ignoring_case};
use crate::wiring::WiringModel;
use vstd::prelude::*;

verus! {

// ---------------------------------------------------------------------------
// Results
// ---------------------------------------------------------------------------

/// An edge of a way or a tree.
#[derive(Debug)]
pub struct PathEdge {
    pub source: String,
    pub target: String,
    pub relation: String,
    /// In tenths.
    pub weight: u32,
}

/// A way between notes.
#[derive(Debug)]
pub struct GraphPath {
    pub nodes: Vec<String>,
    pub edges: Vec<PathEdge>,
    /// In tenths.
    pub total_weight: u64,
    pub hop_count: usize,
}

/// A tree that connects seed concepts.
#[derive(Debug)]
pub struct SteinerTree {
    pub terminal_nodes: Vec<String>,
    pub steiner_nodes: Vec<String>,
    pub edges: Vec<PathEdge>,
    /// In tenths.
    pub total_weight: u64,
}

/// What is told of a note.
#[derive(Debug)]
pub struct NodeContext {
    pub title: String,
    pub path: Option<String>,
    pub tags: Vec<String>,
    pub word_count: usize,
    pub pagerank: Rank,
    pub snippet: Option<String>,
}

/// All that is extracted for some seeds.
#[derive(Debug)]
pub struct GraphRagResult {
    pub seeds: Vec<String>,
    pub paths: Vec<GraphPath>,
    pub steiner_tree: Option<SteinerTree>,
    pub involved_nodes: Vec<NodeContext>,
    pub markdown_context: String,
}

/// What a `PathEdge` says.
pub struct PathEdgeModel {
    pub source: Seq<char>,
    pub target: Seq<char>,
    pub relation: Seq<char>,
    pub weight: u32,
}

/// What a `GraphPath` says.
pub struct PathModel {
    pub nodes: Seq<Seq<char>>,
    pub edges: Seq<PathEdgeModel>,
    pub total_weight: nat,
    pub hop_count: nat,
}

/// What a `SteinerTree` says.
pub struct TreeModel {
    pub terminal_nodes: Seq<Seq<char>>,
    pub steiner_nodes: Seq<Seq<char>>,
    pub edges: Seq<PathEdgeModel>,
    pub total_weight: nat,
}

/// What a `NodeContext` says.
pub struct ContextModel {
    pub title: Seq<char>,
    pub path: Option<Seq<char>>,
    pub tags: Seq<Seq<char>>,
    pub word_count: usize,
    pub pagerank: RankModel,
    pub snippet: Option<Seq<char>>,
}

impl View for PathEdge {
    type V = PathEdgeModel;

    open spec fn view(&self) -> PathEdgeModel {
        PathEdgeModel {
            source: self.source@,
            target: self.target@,
            relation: self.relation@,
            weight: self.weight,
        }
    }
}

impl View for GraphPath {
    type V = PathModel;

    open spec fn view(&self) -> PathModel {
        PathModel {
            nodes: views(self.nodes@),
            edges: views(self.edges@),
            total_weight: self.total_weight as nat,
            hop_count: self.hop_count as nat,
        }
    }
}

impl View for SteinerTree {
    type V = TreeModel;

    open spec fn view(&self) -> TreeModel {
        TreeModel {
            terminal_nodes: views(self.terminal_nodes@),
            steiner_nodes: views(self.steiner_nodes@),
            edges: views(self.edges@),
            total_weight: self.total_weight as nat,
        }
    }
}

impl View for NodeContext {
    type V = ContextModel;

    open spec fn view(&self) -> ContextModel {
        ContextModel {
            title: self.title@,
            path: opt_view(self.path),
            tags: views(self.tags@),
            word_count: self.word_count,
            pagerank: self.pagerank@,
            snippet: opt_view(self.snippet),
        }
    }
}

/// The first `n` edges of a way written out: each with its relation and the
/// node it leads to.
pub open spec fn linearized_edges(p: PathModel, n: int) -> Seq<char>
    decreases n,
{
    if n <= 0 {
        "[["@ + p.nodes[0] + "]]"@
    } else {
        linearized_edges(p, n - 1) + " --["@ + p.edges[n - 1].relation + "]--> [["@ + (if n
            < p.nodes.len() {
            p.nodes[n]
        } else {
            p.edges[n - 1].target
        }) + "]]"@
    }
}

/// A way written out: `[[A]] --[wikilink]--> [[B]]`.
pub open spec fn linearized(p: PathModel) -> Seq<char> {
    if p.nodes.len() == 0 {
        Seq::empty()
    } else {
        linearized_edges(p, p.edges.len() as int)
    }
}

impl GraphPath {
    /// The way written out: `[[A]] --[wikilink]--> [[B]]`.
    pub fn to_linearized_string(&self) -> (r: String)
        ensures
            r@ == linearized(self@),
    {
        if self.nodes.len() == 0 {
            return String::new();
        }
        assert(views(self.nodes@)[0] == self.nodes@[0]@);
        let mut out = "[[".to_owned();
        out.append(self.nodes[0].as_str());
        out.append("]]");
        let mut i: usize = 0;
        while i < self.edges.len()
            invariant
                i <= self.edges@.len(),
                self.nodes@.len() > 0,
                out@ == linearized_edges(self@, i as int),
            decreases self.edges.len() - i,
        {
            assert(views(self.edges@)[i as int] == self.edges@[i as int]@);
            out.append(" --[");
            out.append(self.edges[i].relation.as_str());
            out.append("]--> [[");
            if i + 1 < self.nodes.len() {
                assert(views(self.nodes@)[i + 1] == self.nodes@[i + 1]@);
                out.append(self.nodes[i + 1].as_str());
            } else {
                out.append(self.edges[i].target.as_str());
            }
            out.append("]]");
            i += 1;
        }
        out
    }
}

// ---------------------------------------------------------------------------
// Seeds
// ---------------------------------------------------------------------------

/// Whether one of the tags is this one, hashes and the case of ASCII letters
/// aside.
pub open spec fn tagged(tags: Seq<Seq<char>>, name: Seq<char>) -> bool {
    exists|k: int|
        0 <= k < tags.len() && same_ignoring_case(
            trim_start_char(#[trigger] tags[k], '#'),
            name,
        )
}

impl RagModel {
    /// The first node from `i` on that has this tag.
    pub open spec fn first_tagged(self, name: Seq<char>, i: int) -> Option<usize>
        decreases self.nodes.len() - i,
    {
        if i >= self.nodes.len() {
            None
        } else if tagged(self.nodes[i].tags, name) {
            Some(i as usize)
        } else {
            self.first_tagged(name, i + 1)
        }
    }

    /// The node that a seed names: by title or alias, the same in double
    /// brackets, or the first with this tag.
    pub open spec fn seed_node(self, seed: Seq<char>) -> Option<usize> {
        let clean = trim(seed);
        let bracketed = "[["@.is_prefix_of(clean) && "]]"@.is_suffix_of(clean);
        if self.named(clean) is Some {
            self.named(clean)
        } else if bracketed && self.named(clean.subrange(2, clean.len() - 2)) is Some {
            self.named(clean.subrange(2, clean.len() - 2))
        } else {
            self.first_tagged(lowercase(trim_start_char(clean, '#')), 0)
        }
    }

    /// The nodes that the seeds name, each once.
    pub open spec fn seed_nodes(self, seeds: Seq<Seq<char>>) -> Seq<usize>
        decreases seeds.len(),
    {
        if seeds.len() == 0 {
            Seq::empty()
        } else {
            let before = self.seed_nodes(seeds.drop_last());
            match self.seed_node(seeds.last()) {
                Some(n) if !before.contains(n) => before.push(n),
                _ => before,
            }
        }
    }
}

fn has_tag(tags: &Vec<String>, name: &str) -> (r: bool)
    ensures
        r == tagged(views(tags@), name@),
{
    let ghost all = views(tags@);
    let mut k: usize = 0;
    while k < tags.len()
        invariant
            k <= tags@.len(),
            all == views(tags@),
            forall|j: int|
                0 <= j < k ==> !same_ignoring_case(trim_start_char(#[trigger] all[j], '#'), name@),
        decreases tags.len() - k,
    {
        assert(all[k as int] == tags@[k as int]@);
        let bare = str_trim_start_char(tags[k].as_str(), '#');
        if eq_ignore_ascii_case(bare.as_str(), name) {
            return true;
        }
        k += 1;
    }
    false
}

fn holds_number(v: &Vec<usize>, n: usize) -> (r: bool)
    ensures
        r == v@.contains(n),
{
    let mut i: usize = 0;
    while i < v.len()
        invariant
            i <= v@.len(),
            forall|j: int| 0 <= j < i ==> v@[j] != n,
        decreases v.len() - i,
    {
        if v[i] == n {
            return true;
        }
        i += 1;
    }
    false
}

impl GraphRagEngine {
    /// The node that a seed names.
    pub fn resolve_seed(&self, seed: &str) -> (r: Option<usize>)
        requires
            self.wf(),
        ensures
            r == self@.seed_node(seed@),
            r matches Some(n) ==> n < self@.nodes.len(),
    {
        let clean = str_trim(seed);
        if let Some(n) = self.find(clean.as_str()) {
            return Some(n);
        }
        if str_starts_with(clean.as_str(), "[[") && str_ends_with(clean.as_str(), "]]") {
            let ghost c = clean@;
            proof {
                reveal_strlit("[[");
                reveal_strlit("]]");
                assert(c.subrange(0, 2)[0] == '[' && c.subrange(0, 2)[1] == '[');
                let tail = c.subrange(c.len() - 2, c.len() as int);
                assert(tail[0] == ']' && tail[1] == ']');
                assert(c.len() >= 4);
            }
            let n: usize = chars_of(clean.as_str()).len();
            let inner = str_range(clean.as_str(), 2, n - 2);
            if let Some(n) = self.find(inner.as_str()) {
                return Some(n);
            }
        }
        let bare = str_trim_start_char(clean.as_str(), '#');
        let name = to_lowercase(bare.as_str());
        let mut i: usize = 0;
        while i < self.nodes.len()
            invariant
                i <= self.nodes@.len(),
                self@.first_tagged(name@, i as int) == self@.seed_node(seed@),
            decreases self.nodes.len() - i,
        {
            assert(views(self.nodes@)[i as int] == self.nodes@[i as int]@);
            if has_tag(&self.nodes[i].tags, name.as_str()) {
                return Some(i);
            }
            i += 1;
        }
        None
    }

    fn resolve_seeds(&self, seeds: &Vec<String>) -> (r: Vec<usize>)
        requires
            self.wf(),
        ensures
            r@ == self@.seed_nodes(views(seeds@)),
            r@.no_duplicates(),
            forall|i: int| 0 <= i < r@.len() ==> #[trigger] r@[i] < self@.nodes.len(),
    {
        let ghost all = views(seeds@);
        let mut out: Vec<usize> = Vec::new();
        let mut i: usize = 0;
        while i < seeds.len()
            invariant
                i <= seeds@.len(),
                all == views(seeds@),
                self.wf(),
                out@ == self@.seed_nodes(all.take(i as int)),
                out@.no_duplicates(),
                forall|i: int| 0 <= i < out@.len() ==> #[trigger] out@[i] < self@.nodes.len(),
            decreases seeds.len() - i,
        {
            assert(all.take(i as int + 1).drop_last() =~= all.take(i as int));
            if let Some(n) = self.resolve_seed(seeds[i].as_str()) {
                if !holds_number(&out, n) {
                    out.push(n);
                }
            }
            i += 1;
        }
        assert(all.take(i as int) =~= all);
        out
    }
}

// ---------------------------------------------------------------------------
// Ways
// ---------------------------------------------------------------------------

impl RagModel {
    /// The titles of these nodes.
    pub open spec fn titles(self, ns: Seq<usize>) -> Seq<Seq<char>> {
        ns.map_values(|n: usize| self.nodes[n as int].title)
    }

    /// An edge with the titles of its ends.
    pub open spec fn path_edge(self, e: usize) -> PathEdgeModel {
        PathEdgeModel {
            source: self.nodes[self.ends[e as int].0 as int].title,
            target: self.nodes[self.ends[e as int].1 as int].title,
            relation: self.edges[e as int].relation,
            weight: self.edges[e as int].weight,
        }
    }

    /// These edges with the titles of their ends.
    pub open spec fn path_edges(self, es: Seq<usize>) -> Seq<PathEdgeModel> {
        es.map_values(|e: usize| self.path_edge(e))
    }

    /// A trail as a way between notes.
    pub open spec fn path_of(self, t: TrailModel) -> PathModel {
        PathModel {
            nodes: self.titles(t.nodes),
            edges: self.path_edges(t.edges),
            total_weight: chain_weight(self.weights(), t.edges),
            hop_count: t.edges.len(),
        }
    }

    /// The edges that lead back along a link.
    pub open spec fn backward(self) -> Seq<bool> {
        self.edges.map_values(|e: RagEdgeModel| e.relation == backlink())
    }

    /// No edge is left out.
    pub open spec fn all_edges(self) -> Seq<bool> {
        Seq::new(self.edges.len(), |e: int| false)
    }

    /// The first ways from one node to another over at most so many edges: up to
    /// `limit`, but one where there is any.
    pub open spec fn simple_paths(self, src: usize, dst: usize, hops: nat, limit: nat) -> Seq<
        PathModel,
    > {
        first_of(
            collected(self.ends, src, Some(dst), self.all_edges(), 0, hops + 1),
            at_least_one(limit),
        ).map_values(|t: TrailModel| self.path_of(t))
    }

    /// The first ways out from a node over at most so many edges, none of them
    /// leading back along a link.
    pub open spec fn radial_paths(self, root: usize, hops: nat, limit: nat) -> Seq<PathModel> {
        first_of(
            collected(self.ends, root, None, self.backward(), 1, hops + 1),
            at_least_one(limit),
        ).map_values(|t: TrailModel| self.path_of(t))
    }

    /// The ways from the `i`th seed to those behind it, up to the `j`th.
    pub open spec fn paths_from(self, seeds: Seq<usize>, i: int, j: int, hops: nat, limit: nat) -> Seq<
        PathModel,
    >
        decreases j,
    {
        if j <= i + 1 || j <= 0 {
            Seq::empty()
        } else {
            self.paths_from(seeds, i, j - 1, hops, limit) + self.simple_paths(
                seeds[i],
                seeds[j - 1],
                hops,
                limit,
            )
        }
    }

    /// The ways from the first `n` seeds to those behind them.
    pub open spec fn pair_paths(self, seeds: Seq<usize>, n: int, hops: nat, limit: nat) -> Seq<
        PathModel,
    >
        decreases n,
    {
        if n <= 0 {
            Seq::empty()
        } else {
            self.pair_paths(seeds, n - 1, hops, limit) + self.paths_from(
                seeds,
                n - 1,
                seeds.len() as int,
                hops,
                limit,
            )
        }
    }

    /// The ways that connect the seeds: those around a single seed, up to two
    /// edges long, or those between the pairs of several.
    pub open spec fn candidate_paths(self, seeds: Seq<usize>, hops: nat, limit: nat) -> Seq<
        PathModel,
    > {
        if seeds.len() == 0 {
            Seq::empty()
        } else if seeds.len() == 1 {
            self.radial_paths(
                seeds[0],
                if hops <= 2 {
                    hops
                } else {
                    2
                },
                limit,
            )
        } else {
            self.pair_paths(seeds, seeds.len() as int, hops, limit)
        }
    }

    /// The ways that connect the seeds, the lightest first and no two written
    /// the same: up to `limit`, but one where there is any.
    pub open spec fn paths(self, seeds: Seq<Seq<char>>, hops: nat, limit: nat) -> Seq<PathModel> {
        unique_paths(
            sorted_by(
                self.candidate_paths(self.seed_nodes(seeds), hops, limit),
                |a: PathModel, b: PathModel| lighter(a, b),
            ),
            at_least_one(limit),
        )
    }
}

/// Whether a way is lighter than another, or as light and shorter.
pub open spec fn lighter(a: PathModel, b: PathModel) -> bool {
    a.total_weight < b.total_weight || (a.total_weight == b.total_weight && a.hop_count
        < b.hop_count)
}

/// The first `limit` ways of which no two are written the same.
pub open spec fn unique_paths(ps: Seq<PathModel>, limit: nat) -> Seq<PathModel>
    decreases ps.len(),
{
    if ps.len() == 0 {
        Seq::empty()
    } else {
        let before = unique_paths(ps.drop_last(), limit);
        if before.len() >= limit || (exists|k: int|
            0 <= k < before.len() && linearized(#[trigger] before[k]) == linearized(ps.last())) {
            before
        } else {
            before.push(ps.last())
        }
    }
}

fn path_less(a: &GraphPath, b: &GraphPath) -> (r: bool)
    ensures
        r == lighter(a@, b@),
{
    if a.total_weight != b.total_weight {
        return a.total_weight < b.total_weight;
    }
    a.hop_count < b.hop_count
}

impl GraphRagEngine {
    fn title_list(&self, ns: &Vec<usize>) -> (r: Vec<String>)
        requires
            forall|i: int| 0 <= i < ns@.len() ==> #[trigger] ns@[i] < self@.nodes.len(),
        ensures
            views(r@) == self@.titles(ns@),
    {
        broadcast use group_views;

        let ghost wanted = self@.titles(ns@);
        let mut out: Vec<String> = Vec::new();
        let mut i: usize = 0;
        while i < ns.len()
            invariant
                i <= ns@.len(),
                forall|i: int| 0 <= i < ns@.len() ==> #[trigger] ns@[i] < self@.nodes.len(),
                wanted == self@.titles(ns@),
                views(out@) == wanted.take(i as int),
            decreases ns.len() - i,
        {
            let n: usize = ns[i];
            assert(ns@[i as int] < self@.nodes.len());
            assert(views(self.nodes@)[n as int] == self.nodes@[n as int]@);
            out.push(self.nodes[n].title.clone());
            i += 1;
            assert(wanted.take(i as int) =~= wanted.take(i as int - 1).push(wanted[i as int - 1]));
        }
        assert(wanted.take(i as int) =~= wanted);
        out
    }

    fn edge_list(&self, es: &Vec<usize>) -> (r: Vec<PathEdge>)
        requires
            self.wf(),
            forall|i: int| 0 <= i < es@.len() ==> #[trigger] es@[i] < self@.ends.len(),
        ensures
            views(r@) == self@.path_edges(es@),
    {
        broadcast use group_views;

        let ghost wanted = self@.path_edges(es@);
        let mut out: Vec<PathEdge> = Vec::new();
        let mut i: usize = 0;
        while i < es.len()
            invariant
                i <= es@.len(),
                self.wf(),
                forall|i: int| 0 <= i < es@.len() ==> #[trigger] es@[i] < self@.ends.len(),
                wanted == self@.path_edges(es@),
                views(out@) == wanted.take(i as int),
            decreases es.len() - i,
        {
            let e: usize = es[i];
            assert(es@[i as int] < self@.ends.len());
            let (a, b): (usize, usize) = self.wiring.ends_of(e);
            assert(self@.ends[e as int] == (a, b));
            assert(views(self.nodes@)[a as int] == self.nodes@[a as int]@);
            assert(views(self.nodes@)[b as int] == self.nodes@[b as int]@);
            assert(views(self.edges@)[e as int] == self.edges@[e as int]@);
            out.push(
                PathEdge {
                    source: self.nodes[a].title.clone(),
                    target: self.nodes[b].title.clone(),
                    relation: self.edges[e].relation.clone(),
                    weight: self.edges[e].weight,
                },
            );
            i += 1;
            assert(wanted.take(i as int) =~= wanted.take(i as int - 1).push(wanted[i as int - 1]));
        }
        assert(wanted.take(i as int) =~= wanted);
        out
    }

    fn make_path(&self, t: &Trail) -> (r: GraphPath)
        requires
            self.wf(),
            t@.is_simple(self@.wiring()),
        ensures
            r@ == self@.path_of(t@),
    {
        proof {
            lemma_trail_bounded(t@, self@.wiring());
        }
        let ghost weights = self@.weights();
        let mut total: u64 = 0;
        let mut i: usize = 0;
        while i < t.edges.len()
            invariant
                i <= t.edges@.len(),
                self.wf(),
                t@.is_simple(self@.wiring()),
                t.edges@.len() <= 0xffff_ffff,
                weights == self@.weights(),
                total == chain_weight(weights, t.edges@.take(i as int)),
                total <= 100 * i,
            decreases t.edges.len() - i,
        {
            assert(t.edges@.take(i as int + 1).drop_last() =~= t.edges@.take(i as int));
            let e: usize = t.edges[i];
            assert(t@.edges[i as int] == e);
            assert(weights[e as int] == self@.edges[e as int].weight);
            total = total + self.weights[e] as u64;
            i += 1;
        }
        assert(t.edges@.take(i as int) =~= t.edges@);
        GraphPath {
            nodes: self.title_list(&t.nodes),
            edges: self.edge_list(&t.edges),
            total_weight: total,
            hop_count: t.edges.len(),
        }
    }

    fn make_paths(&self, ts: &Vec<Trail>) -> (r: Vec<GraphPath>)
        requires
            self.wf(),
            forall|i: int| 0 <= i < ts@.len() ==> (#[trigger] ts@[i])@.is_simple(self@.wiring()),
        ensures
            views(r@) == views(ts@).map_values(|t: TrailModel| self@.path_of(t)),
    {
        broadcast use group_views;

        let ghost wanted = views(ts@).map_values(|t: TrailModel| self@.path_of(t));
        let mut out: Vec<GraphPath> = Vec::new();
        let mut i: usize = 0;
        while i < ts.len()
            invariant
                i <= ts@.len(),
                self.wf(),
                forall|i: int|
                    0 <= i < ts@.len() ==> (#[trigger] ts@[i])@.is_simple(self@.wiring()),
                wanted == views(ts@).map_values(|t: TrailModel| self@.path_of(t)),
                views(out@) == wanted.take(i as int),
            decreases ts.len() - i,
        {
            assert(ts@[i as int]@.is_simple(self@.wiring()));
            out.push(self.make_path(&ts[i]));
            i += 1;
            assert(wanted.take(i as int) =~= wanted.take(i as int - 1).push(wanted[i as int - 1]));
        }
        assert(wanted.take(i as int) =~= wanted);
        out
    }

    fn skip_flags(&self, forward_only: bool) -> (r: Vec<bool>)
        ensures
            r@ == if forward_only {
                self@.backward()
            } else {
                self@.all_edges()
            },
    {
        let ghost wanted = if forward_only {
            self@.backward()
        } else {
            self@.all_edges()
        };
        let mut out: Vec<bool> = Vec::new();
        let mut e: usize = 0;
        while e < self.edges.len()
            invariant
                e <= self.edges@.len(),
                wanted == if forward_only {
                    self@.backward()
                } else {
                    self@.all_edges()
                },
                out@ == wanted.take(e as int),
            decreases self.edges.len() - e,
        {
            assert(views(self.edges@)[e as int] == self.edges@[e as int]@);
            out.push(forward_only && same(self.edges[e].relation.as_str(), "backlink"));
            e += 1;
            assert(wanted.take(e as int) =~= wanted.take(e as int - 1).push(wanted[e as int - 1]));
        }
        assert(wanted.take(e as int) =~= wanted);
        out
    }

    fn find_simple_paths(&self, src: usize, dst: usize, max_hops: usize, limit: usize) -> (r: Vec<
        GraphPath,
    >)
        requires
            self.wf(),
            src < self@.nodes.len(),
        ensures
            views(r@) == self@.simple_paths(src, dst, max_hops as nat, limit as nat),
    {
        let skip = self.skip_flags(false);
        assert(self.wiring@ == self@.wiring());
        let ts = collect_trails(&self.wiring, src, Some(dst), &skip, 0, max_hops, limit);
        self.make_paths(&ts)
    }

    fn extract_radial_paths(&self, root: usize, max_hops: usize, limit: usize) -> (r: Vec<GraphPath>)
        requires
            self.wf(),
            root < self@.nodes.len(),
        ensures
            views(r@) == self@.radial_paths(root, max_hops as nat, limit as nat),
    {
        let skip = self.skip_flags(true);
        assert(self.wiring@ == self@.wiring());
        let ts = collect_trails(&self.wiring, root, None, &skip, 1, max_hops, limit);
        self.make_paths(&ts)
    }

    fn extract_pair_paths(&self, seeds: &Vec<usize>, max_hops: usize, limit: usize) -> (r: Vec<
        GraphPath,
    >)
        requires
            self.wf(),
            forall|i: int| 0 <= i < seeds@.len() ==> #[trigger] seeds@[i] < self@.nodes.len(),
        ensures
            views(r@) == self@.pair_paths(
                seeds@,
                seeds@.len() as int,
                max_hops as nat,
                limit as nat,
            ),
    {
        broadcast use group_views;

        let mut out: Vec<GraphPath> = Vec::new();
        let mut i: usize = 0;
        while i < seeds.len()
            invariant
                i <= seeds@.len(),
                self.wf(),
                forall|i: int| 0 <= i < seeds@.len() ==> #[trigger] seeds@[i] < self@.nodes.len(),
                views(out@) == self@.pair_paths(seeds@, i as int, max_hops as nat, limit as nat),
            decreases seeds.len() - i,
        {
            let ghost base = views(out@);
            let n: usize = seeds.len();
            let mut j: usize = i + 1;
            assert(base + self@.paths_from(
                seeds@,
                i as int,
                j as int,
                max_hops as nat,
                limit as nat,
            ) =~= base);
            while j < n
                invariant
                    i < j <= n,
                    n == seeds@.len(),
                    self.wf(),
                    forall|i: int|
                        0 <= i < seeds@.len() ==> #[trigger] seeds@[i] < self@.nodes.len(),
                    views(out@) == base + self@.paths_from(
                        seeds@,
                        i as int,
                        j as int,
                        max_hops as nat,
                        limit as nat,
                    ),
                decreases n - j,
            {
                assert(seeds@[i as int] < self@.nodes.len());
                let mut more = self.find_simple_paths(seeds[i], seeds[j], max_hops, limit);
                let ghost before = out@;
                let ghost found = more@;
                out.append(&mut more);
                assert(out@ =~= before + found);
                proof {
                    crate::text::lemma_views_concat(before, found);
                    let so_far = self@.paths_from(
                        seeds@,
                        i as int,
                        j as int,
                        max_hops as nat,
                        limit as nat,
                    );
                    assert((base + so_far) + views(found) =~= base + (so_far + views(found)));
                }
                j += 1;
            }
            i += 1;
        }
        out
    }

    /// The ways that connect the seeds, the lightest first.
    pub fn extract_paths(&self, seeds: &Vec<String>, max_hops: usize, max_paths: usize) -> (r: Vec<
        GraphPath,
    >)
        requires
            self.wf(),
        ensures
            views(r@) == self@.paths(views(seeds@), max_hops as nat, max_paths as nat),
    {
        broadcast use group_views;

        let roots = self.resolve_seeds(seeds);
        let all: Vec<GraphPath> = if roots.len() == 0 {
            Vec::new()
        } else if roots.len() == 1 {
            assert(roots@[0] < self@.nodes.len());
            let hops: usize = if max_hops <= 2 {
                max_hops
            } else {
                2
            };
            self.extract_radial_paths(roots[0], hops, max_paths)
        } else {
            self.extract_pair_paths(&roots, max_hops, max_paths)
        };
        let ghost lt = |a: GraphPath, b: GraphPath| lighter(a@, b@);
        let ghost lt_view = |a: PathModel, b: PathModel| lighter(a, b);
        proof {
            lemma_sorted_views(all@, lt, lt_view);
        }
        let sorted = sort_by(all, path_less, Ghost(lt));
        let ghost ps = views(sorted@);
        let cap: usize = if max_paths == 0 {
            1
        } else {
            max_paths
        };
        let mut out: Vec<GraphPath> = Vec::new();
        let mut written: Vec<String> = Vec::new();
        for p in it: sorted
            invariant
                it.seq() == sorted@,
                ps == views(sorted@),
                cap == at_least_one(max_paths as nat),
                views(out@) == unique_paths(ps.take(it.index() as int), cap as nat),
                written@.len() == out@.len(),
                forall|k: int|
                    0 <= k < out@.len() ==> #[trigger] views(written@)[k] == linearized(
                        views(out@)[k],
                    ),
        {
            let ghost n = it.index() as int;
            assert(ps.take(n + 1).drop_last() =~= ps.take(n));
            assert(ps[n] == p@);
            if out.len() < cap {
                let text = p.to_linearized_string();
                let known = holds_str(&written, text.as_str());
                proof {
                    if known {
                        let k = choose|k: int|
                            0 <= k < views(written@).len() && views(written@)[k] == text@;
                        assert(linearized(views(out@)[k]) == linearized(p@));
                    } else {
                        assert forall|k: int| 0 <= k < out@.len() implies linearized(
                            #[trigger] views(out@)[k],
                        ) != linearized(p@) by {
                            assert(views(written@)[k] == linearized(views(out@)[k]));
                        }
                    }
                }
                if !known {
                    let ghost w0 = views(written@);
                    let ghost o0 = views(out@);
                    written.push(text);
                    out.push(p);
                    assert forall|k: int| 0 <= k < out@.len() implies #[trigger] views(written@)[k]
                        == linearized(views(out@)[k]) by {
                        if k < o0.len() {
                            assert(w0[k] == linearized(o0[k]));
                        }
                    }
                }
            }
        }
        assert(ps.take(ps.len() as int) =~= ps);
        out
    }
}

// ---------------------------------------------------------------------------
// What holds of the ways
// ---------------------------------------------------------------------------

proof fn lemma_lighter_is_weak_order()
    ensures
        is_weak_order(|a: PathModel, b: PathModel| lighter(a, b)),
{
}

proof fn lemma_unique_paths(ps: Seq<PathModel>, limit: nat, lt: spec_fn(PathModel, PathModel) -> bool)
    requires
        in_order(ps, lt),
        limit >= 1,
        is_weak_order(lt),
    ensures
        unique_paths(ps, limit).len() <= limit,
        in_order(unique_paths(ps, limit), lt),
        forall|i: int|
            0 <= i < unique_paths(ps, limit).len() ==> ps.contains(
                #[trigger] unique_paths(ps, limit)[i],
            ),
        forall|i: int, j: int|
            0 <= i < j < unique_paths(ps, limit).len() ==> linearized(
                #[trigger] unique_paths(ps, limit)[i],
            ) != linearized(#[trigger] unique_paths(ps, limit)[j]),
        forall|k: int|
            0 <= k < ps.len() ==> stands_for(unique_paths(ps, limit), #[trigger] ps[k], lt) || (
            unique_paths(ps, limit).len() == limit && none_behind(
                unique_paths(ps, limit),
                ps[k],
                lt,
            )),
    decreases ps.len(),
{
    let u = unique_paths(ps, limit);
    if ps.len() > 0 {
        let rest = ps.drop_last();
        let before = unique_paths(rest, limit);
        assert forall|i: int, j: int| 0 <= i < j < rest.len() implies !lt(
            #[trigger] rest[j],
            #[trigger] rest[i],
        ) by {
            assert(rest[i] == ps[i] && rest[j] == ps[j]);
        }
        lemma_unique_paths(rest, limit, lt);
        assert forall|i: int| 0 <= i < before.len() implies !lt(
            ps.last(),
            #[trigger] before[i],
        ) && ps.contains(before[i]) by {
            assert(rest.contains(before[i]));
            let k = choose|k: int| 0 <= k < rest.len() && rest[k] == before[i];
            assert(ps[k] == before[i]);
            assert(ps[ps.len() - 1] == ps.last());
        }
        assert(ps[ps.len() - 1] == ps.last());
        assert forall|k: int| 0 <= k < ps.len() implies stands_for(u, #[trigger] ps[k], lt) || (
        u.len() == limit && none_behind(u, ps[k], lt)) by {
            if k < rest.len() {
                assert(rest[k] == ps[k]);
                if stands_for(before, ps[k], lt) {
                    let i = choose|i: int|
                        0 <= i < before.len() && linearized(#[trigger] before[i]) == linearized(
                            ps[k],
                        ) && !lt(ps[k], before[i]);
                    assert(u[i] == before[i]);
                } else {
                    assert(u == before);
                }
            } else if before.len() >= limit {
                assert(none_behind(u, ps[k], lt));
            } else if u != before {
                assert(u[u.len() - 1] == ps[k]);
            } else {
                let i = choose|i: int|
                    0 <= i < before.len() && linearized(#[trigger] before[i]) == linearized(
                        ps.last(),
                    );
                assert(u[i] == before[i]);
            }
        }
        assert forall|i: int| 0 <= i < u.len() implies ps.contains(#[trigger] u[i]) by {
            if i < before.len() {
                assert(u[i] == before[i]);
            }
        }
        assert forall|i: int, j: int| 0 <= i < j < u.len() implies linearized(#[trigger] u[i])
            != linearized(#[trigger] u[j]) by {
            assert(u[i] == before[i]);
            if j < before.len() {
                assert(u[j] == before[j]);
            }
        }
        assert forall|i: int, j: int| 0 <= i < j < u.len() implies !lt(
            #[trigger] u[j],
            #[trigger] u[i],
        ) by {
            assert(u[i] == before[i]);
            if j < before.len() {
                assert(u[j] == before[j]);
            }
        }
    }
}

spec fn stands_for(
    u: Seq<PathModel>,
    p: PathModel,
    lt: spec_fn(PathModel, PathModel) -> bool,
) -> bool {
    exists|i: int|
        0 <= i < u.len() && linearized(#[trigger] u[i]) == linearized(p) && !lt(p, u[i])
}

spec fn none_behind(
    u: Seq<PathModel>,
    p: PathModel,
    lt: spec_fn(PathModel, PathModel) -> bool,
) -> bool {
    forall|i: int| 0 <= i < u.len() ==> !lt(p, #[trigger] u[i])
}

/// The ways returned come lightest first and, where they weigh the same, shortest
/// first. None is written like another, and there are no more than asked for, or one
/// where none was asked for.
pub proof fn paths_come_lightest_first(m: RagModel, seeds: Seq<Seq<char>>, hops: nat, limit: nat)
    ensures
        m.paths(seeds, hops, limit).len() <= limit || m.paths(seeds, hops, limit).len() == 1,
        forall|i: int, j: int|
            #![trigger m.paths(seeds, hops, limit)[i], m.paths(seeds, hops, limit)[j]]
            0 <= i < j < m.paths(seeds, hops, limit).len() ==> {
                let (p, q) = (m.paths(seeds, hops, limit)[i], m.paths(seeds, hops, limit)[j]);
                &&& p.total_weight <= q.total_weight
                &&& p.total_weight == q.total_weight ==> p.hop_count <= q.hop_count
                &&& linearized(p) != linearized(q)
            },
{
    let lt = |a: PathModel, b: PathModel| lighter(a, b);
    let all = m.candidate_paths(m.seed_nodes(seeds), hops, limit);
    lemma_lighter_is_weak_order();
    sorted_is_in_order(all, lt);
    lemma_unique_paths(sorted_by(all, lt), at_least_one(limit), lt);
    let r = m.paths(seeds, hops, limit);
    assert forall|i: int, j: int| #![trigger r[i], r[j]] 0 <= i < j < r.len() implies {
        &&& r[i].total_weight <= r[j].total_weight
        &&& r[i].total_weight == r[j].total_weight ==> r[i].hop_count <= r[j].hop_count
        &&& linearized(r[i]) != linearized(r[j])
    } by {
        assert(!lt(r[j], r[i]));
    }
}

/// Every way returned is one of the candidates. A candidate that is not returned is
/// written like one that is and is no heavier, or else as many as asked for are
/// returned and none of them is heavier, nor as heavy and longer.
pub proof fn no_lighter_path_is_left_out(m: RagModel, seeds: Seq<Seq<char>>, hops: nat, limit: nat)
    ensures
        forall|i: int|
            0 <= i < m.paths(seeds, hops, limit).len() ==> m.candidate_paths(
                m.seed_nodes(seeds),
                hops,
                limit,
            ).contains(#[trigger] m.paths(seeds, hops, limit)[i]),
        forall|c: PathModel| #[trigger]
            m.candidate_paths(m.seed_nodes(seeds), hops, limit).contains(c) ==> {
                let r = m.paths(seeds, hops, limit);
                ||| exists|i: int|
                    {
                        &&& 0 <= i < r.len()
                        &&& linearized(#[trigger] r[i]) == linearized(c)
                        &&& r[i].total_weight <= c.total_weight
                    }
                ||| r.len() >= 1 && r.len() >= limit && forall|i: int|
                    0 <= i < r.len() ==> {
                        &&& (#[trigger] r[i]).total_weight <= c.total_weight
                        &&& r[i].total_weight == c.total_weight ==> r[i].hop_count <= c.hop_count
                    }
            },
{
    let lt = |a: PathModel, b: PathModel| lighter(a, b);
    let all = m.candidate_paths(m.seed_nodes(seeds), hops, limit);
    let sorted = sorted_by(all, lt);
    lemma_lighter_is_weak_order();
    sorted_is_in_order(all, lt);
    lemma_sorted_members(all, lt);
    lemma_unique_paths(sorted, at_least_one(limit), lt);
    let r = m.paths(seeds, hops, limit);
    assert forall|i: int| 0 <= i < r.len() implies all.contains(#[trigger] r[i]) by {
        assert(sorted.contains(r[i]));
        let k = choose|k: int| 0 <= k < sorted.len() && sorted[k] == r[i];
        assert(all.contains(sorted[k]));
    }
    assert forall|c: PathModel| #[trigger] all.contains(c) implies {
        ||| exists|i: int|
            {
                &&& 0 <= i < r.len()
                &&& linearized(#[trigger] r[i]) == linearized(c)
                &&& r[i].total_weight <= c.total_weight
            }
        ||| r.len() >= 1 && r.len() >= limit && forall|i: int|
            0 <= i < r.len() ==> {
                &&& (#[trigger] r[i]).total_weight <= c.total_weight
                &&& r[i].total_weight == c.total_weight ==> r[i].hop_count <= c.hop_count
            }
    } by {
        let k = choose|k: int| 0 <= k < all.len() && all[k] == c;
        assert(sorted.contains(all[k]));
        let s = choose|s: int| 0 <= s < sorted.len() && sorted[s] == c;
        if stands_for(r, sorted[s], lt) {
            let i = choose|i: int|
                0 <= i < r.len() && linearized(#[trigger] r[i]) == linearized(c) && !lt(c, r[i]);
            assert(r[i].total_weight <= c.total_weight);
        } else {
            assert forall|i: int| 0 <= i < r.len() implies {
                &&& (#[trigger] r[i]).total_weight <= c.total_weight
                &&& r[i].total_weight == c.total_weight ==> r[i].hop_count <= c.hop_count
            } by {
                assert(!lt(c, r[i]));
            }
        }
    }
}

/// What the edges of a way weigh together.
pub open spec fn edges_weigh(es: Seq<PathEdgeModel>) -> nat {
    es.fold_left(0nat, |sum: nat, e: PathEdgeModel| sum + e.weight as nat)
}

proof fn lemma_edges_weigh(m: RagModel, es: Seq<usize>)
    requires
        forall|i: int| 0 <= i < es.len() ==> #[trigger] es[i] < m.edges.len(),
    ensures
        edges_weigh(m.path_edges(es)) == chain_weight(m.weights(), es),
    decreases es.len(),
{
    let all = m.path_edges(es);
    reveal_with_fuel(Seq::fold_left, 1);
    if es.len() > 0 {
        let rest = es.drop_last();
        assert forall|i: int| 0 <= i < rest.len() implies #[trigger] rest[i] < m.edges.len() by {
            assert(rest[i] == es[i]);
        }
        lemma_edges_weigh(m, rest);
        assert(all.drop_last() =~= m.path_edges(rest));
        assert(es[es.len() - 1] < m.edges.len());
    }
}

/// A way tells its trail: it goes from note to note along edges that lead from the one
/// to the next, it has as many steps as edges, and it weighs what its edges weigh
/// together.
pub proof fn way_tells_its_trail(m: RagModel, t: TrailModel)
    requires
        m.wf(),
        t.is_simple(m.wiring()),
    ensures
        ({
            let p = m.path_of(t);
            &&& p.nodes.len() == p.edges.len() + 1
            &&& p.hop_count == p.edges.len()
            &&& p.total_weight == edges_weigh(p.edges)
            &&& forall|i: int|
                0 <= i < p.nodes.len() ==> #[trigger] p.nodes[i] == m.nodes[t.nodes[i] as int].title
            &&& forall|i: int|
                0 <= i < p.edges.len() ==> (#[trigger] p.edges[i]).source == p.nodes[i]
                    && p.edges[i].target == p.nodes[i + 1] && p.edges[i].relation
                    == m.edges[t.edges[i] as int].relation && p.edges[i].weight
                    == m.edges[t.edges[i] as int].weight
        }),
{
    assert forall|i: int| 0 <= i < t.edges.len() implies #[trigger] t.edges[i] < m.edges.len() by {}
    lemma_edges_weigh(m, t.edges);
}

/// Whether a candidate is a way from one seed to a later one, along a trail of at most
/// so many edges.
pub open spec fn joins_seeds(m: RagModel, seeds: Seq<usize>, hops: nat, p: PathModel) -> bool {
    exists|a: int, b: int, t: TrailModel|
        {
            &&& 0 <= a < b < seeds.len()
            &&& #[trigger] is_trail_between(m, t, seeds[a], seeds[b], hops)
            &&& p == m.path_of(t)
        }
}

/// Whether a trail leads from one node to another over at most so many edges.
pub open spec fn is_trail_between(
    m: RagModel,
    t: TrailModel,
    from: usize,
    to: usize,
    hops: nat,
) -> bool {
    &&& t.is_simple(m.wiring())
    &&& t.nodes[0] == from
    &&& t.nodes[t.nodes.len() - 1] == to
    &&& t.edges.len() <= hops
}

proof fn lemma_simple_paths(
    m: RagModel,
    src: usize,
    dst: usize,
    hops: nat,
    limit: nat,
    t: TrailModel,
)
    requires
        m.wf(),
        src < m.nodes.len(),
    ensures
        forall|i: int|
            0 <= i < m.simple_paths(src, dst, hops, limit).len() ==> exists|u: TrailModel| #[trigger]
                is_trail_between(m, u, src, dst, hops) && #[trigger] m.simple_paths(
                    src,
                    dst,
                    hops,
                    limit,
                )[i] == m.path_of(u),
        is_trail_between(m, t, src, dst, hops) ==> m.simple_paths(src, dst, hops, limit).contains(
            m.path_of(t),
        ) || (m.simple_paths(src, dst, hops, limit).len() >= limit && m.simple_paths(
            src,
            dst,
            hops,
            limit,
        ).len() >= 1 && forall|i: int|
            0 <= i < m.simple_paths(src, dst, hops, limit).len() ==> (#[trigger] m.simple_paths(
                src,
                dst,
                hops,
                limit,
            )[i]).hop_count <= t.edges.len()),
{
    let w = m.wiring();
    let skip = m.all_edges();
    let all = collected(m.ends, src, Some(dst), skip, 0, hops + 1);
    let cap = at_least_one(limit);
    let kept = first_of(all, cap);
    let r = m.simple_paths(src, dst, hops, limit);
    only_trails_are_collected(w, src, Some(dst), skip, 0, hops + 1);
    lemma_first_of(all, cap);
    assert forall|i: int| 0 <= i < r.len() implies exists|u: TrailModel| #[trigger]
        is_trail_between(m, u, src, dst, hops) && #[trigger] r[i] == m.path_of(u) by {
        assert(kept[i] == all[i]);
        assert(is_trail_between(m, all[i], src, dst, hops));
    }
    if is_trail_between(m, t, src, dst, hops) {
        every_trail_is_collected(w, t, hops);
        assert(skip =~= Seq::new(w.ends.len(), |e: int| false));
        assert(all.contains(t));
        let k = choose|k: int| 0 <= k < all.len() && all[k] == t;
        if k < kept.len() {
            assert(r[k] == m.path_of(t));
        } else {
            assert forall|i: int| 0 <= i < r.len() implies (#[trigger] r[i]).hop_count
                <= t.edges.len() by {
                assert(kept[i] == all[i]);
                assert(all[i].edges.len() <= all[k].edges.len());
            }
        }
    }
}

proof fn lemma_paths_from(
    m: RagModel,
    seeds: Seq<usize>,
    i: int,
    j: int,
    hops: nat,
    limit: nat,
)
    requires
        m.wf(),
        0 <= i < seeds.len(),
        j <= seeds.len(),
        forall|k: int| 0 <= k < seeds.len() ==> #[trigger] seeds[k] < m.nodes.len(),
    ensures
        forall|x: int|
            0 <= x < m.paths_from(seeds, i, j, hops, limit).len() ==> joins_seeds(
                m,
                seeds,
                hops,
                #[trigger] m.paths_from(seeds, i, j, hops, limit)[x],
            ),
        forall|b: int, p: PathModel|
            i < b < j && #[trigger] m.simple_paths(seeds[i], seeds[b], hops, limit).contains(p)
                ==> m.paths_from(seeds, i, j, hops, limit).contains(p),
    decreases j,
{
    if j > i + 1 && j > 0 {
        lemma_paths_from(m, seeds, i, j - 1, hops, limit);
        let before = m.paths_from(seeds, i, j - 1, hops, limit);
        let more = m.simple_paths(seeds[i], seeds[j - 1], hops, limit);
        let all = m.paths_from(seeds, i, j, hops, limit);
        lemma_simple_paths(
            m,
            seeds[i],
            seeds[j - 1],
            hops,
            limit,
            TrailModel { nodes: Seq::empty(), edges: Seq::empty() },
        );
        assert forall|x: int| 0 <= x < all.len() implies joins_seeds(
            m,
            seeds,
            hops,
            #[trigger] all[x],
        ) by {
            if x < before.len() {
                assert(all[x] == before[x]);
            } else {
                assert(all[x] == more[x - before.len()]);
                let u = choose|u: TrailModel| #[trigger]
                    is_trail_between(m, u, seeds[i], seeds[j - 1], hops) && all[x] == m.path_of(u);
                assert(is_trail_between(m, u, seeds[i], seeds[j - 1], hops));
            }
        }
        assert forall|b: int, p: PathModel|
            i < b < j && #[trigger] m.simple_paths(seeds[i], seeds[b], hops, limit).contains(
                p,
            ) implies all.contains(p) by {
            if b < j - 1 {
                assert(before.contains(p));
                let k = choose|k: int| 0 <= k < before.len() && before[k] == p;
                assert(all[k] == p);
            } else {
                let k = choose|k: int| 0 <= k < more.len() && more[k] == p;
                assert(all[before.len() + k] == p);
            }
        }
    }
}

proof fn lemma_pair_paths(m: RagModel, seeds: Seq<usize>, n: int, hops: nat, limit: nat)
    requires
        m.wf(),
        n <= seeds.len(),
        forall|k: int| 0 <= k < seeds.len() ==> #[trigger] seeds[k] < m.nodes.len(),
    ensures
        forall|x: int|
            0 <= x < m.pair_paths(seeds, n, hops, limit).len() ==> joins_seeds(
                m,
                seeds,
                hops,
                #[trigger] m.pair_paths(seeds, n, hops, limit)[x],
            ),
        forall|a: int, b: int, p: PathModel|
            0 <= a < n && a < b < seeds.len() && #[trigger] m.simple_paths(
                seeds[a],
                seeds[b],
                hops,
                limit,
            ).contains(p) ==> m.pair_paths(seeds, n, hops, limit).contains(p),
    decreases n,
{
    if n > 0 {
        lemma_pair_paths(m, seeds, n - 1, hops, limit);
        lemma_paths_from(m, seeds, n - 1, seeds.len() as int, hops, limit);
        let before = m.pair_paths(seeds, n - 1, hops, limit);
        let more = m.paths_from(seeds, n - 1, seeds.len() as int, hops, limit);
        let all = m.pair_paths(seeds, n, hops, limit);
        assert forall|x: int| 0 <= x < all.len() implies joins_seeds(
            m,
            seeds,
            hops,
            #[trigger] all[x],
        ) by {
            if x < before.len() {
                assert(all[x] == before[x]);
            } else {
                assert(all[x] == more[x - before.len()]);
            }
        }
        assert forall|a: int, b: int, p: PathModel|
            0 <= a < n && a < b < seeds.len() && #[trigger] m.simple_paths(
                seeds[a],
                seeds[b],
                hops,
                limit,
            ).contains(p) implies all.contains(p) by {
            if a < n - 1 {
                assert(before.contains(p));
                let k = choose|k: int| 0 <= k < before.len() && before[k] == p;
                assert(all[k] == p);
            } else {
                assert(more.contains(p));
                let k = choose|k: int| 0 <= k < more.len() && more[k] == p;
                assert(all[before.len() + k] == p);
            }
        }
    }
}

/// With several seeds the candidates are the ways from a seed to a later one over no
/// more edges than asked for. A way of that kind is left out only where the two seeds
/// have as many candidates as asked for, none of them with more steps.
pub proof fn candidates_join_the_seeds(
    m: RagModel,
    seeds: Seq<usize>,
    hops: nat,
    limit: nat,
    a: int,
    b: int,
    t: TrailModel,
)
    requires
        m.wf(),
        0 <= a < b < seeds.len(),
        forall|k: int| 0 <= k < seeds.len() ==> #[trigger] seeds[k] < m.nodes.len(),
    ensures
        forall|x: int|
            0 <= x < m.candidate_paths(seeds, hops, limit).len() ==> joins_seeds(
                m,
                seeds,
                hops,
                #[trigger] m.candidate_paths(seeds, hops, limit)[x],
            ),
        is_trail_between(m, t, seeds[a], seeds[b], hops) ==> m.candidate_paths(
            seeds,
            hops,
            limit,
        ).contains(m.path_of(t)) || exists|shorter: Seq<PathModel>|
            {
                &&& shorter.len() >= limit
                &&& shorter.len() >= 1
                &&& forall|i: int|
                    #![trigger shorter[i]]
                    0 <= i < shorter.len() ==> shorter[i].hop_count <= t.edges.len()
                        && m.candidate_paths(seeds, hops, limit).contains(shorter[i])
            },
{
    lemma_pair_paths(m, seeds, seeds.len() as int, hops, limit);
    lemma_simple_paths(m, seeds[a], seeds[b], hops, limit, t);
    let all = m.candidate_paths(seeds, hops, limit);
    let between = m.simple_paths(seeds[a], seeds[b], hops, limit);
    assert forall|i: int| 0 <= i < between.len() implies all.contains(#[trigger] between[i]) by {
        assert(between.contains(between[i]));
    }
    if is_trail_between(m, t, seeds[a], seeds[b], hops) && !all.contains(m.path_of(t)) {
        assert(!between.contains(m.path_of(t)));
        assert(forall|i: int|
            #![trigger between[i]]
            0 <= i < between.len() ==> between[i].hop_count <= t.edges.len() && all.contains(
                between[i],
            ));
    }
}

/// With a single seed the candidates are the ways out from it over one or two edges, as
/// far as asked for, none of which leads back along a link. Such a way is left out only
/// where there are as many candidates as asked for, none of them with more steps.
pub proof fn candidates_surround_the_seed(
    m: RagModel,
    seed: usize,
    hops: nat,
    limit: nat,
    t: TrailModel,
)
    requires
        m.wf(),
        seed < m.nodes.len(),
    ensures
        forall|x: int|
            0 <= x < m.candidate_paths(seq![seed], hops, limit).len() ==> exists|u: TrailModel|
                #[trigger]
                is_way_out(m, u, seed, hops) && #[trigger] m.candidate_paths(
                    seq![seed],
                    hops,
                    limit,
                )[x] == m.path_of(u),
        is_way_out(m, t, seed, hops) ==> m.candidate_paths(seq![seed], hops, limit).contains(
            m.path_of(t),
        ) || (m.candidate_paths(seq![seed], hops, limit).len() >= limit && forall|x: int|
            0 <= x < m.candidate_paths(seq![seed], hops, limit).len() ==> (
            #[trigger] m.candidate_paths(seq![seed], hops, limit)[x]).hop_count <= t.edges.len()),
{
    let w = m.wiring();
    let skip = m.backward();
    let reach: nat = if hops <= 2 {
        hops
    } else {
        2
    };
    let all = collected(m.ends, seed, None, skip, 1, reach + 1);
    let cap = at_least_one(limit);
    let kept = first_of(all, cap);
    let r = m.candidate_paths(seq![seed], hops, limit);
    assert(seq![seed].len() == 1 && seq![seed][0] == seed);
    assert(r == m.radial_paths(seed, reach, limit));
    only_trails_are_collected(w, seed, None, skip, 1, reach + 1);
    lemma_first_of(all, cap);
    assert forall|x: int| 0 <= x < r.len() implies exists|u: TrailModel| #[trigger]
        is_way_out(m, u, seed, hops) && #[trigger] r[x] == m.path_of(u) by {
        assert(kept[x] == all[x]);
        let u = all[x];
        assert forall|i: int| 0 <= i < u.edges.len() implies m.edges[(
        #[trigger] u.edges[i]) as int].relation != "backlink"@ by {
            assert(!skip[u.edges[i] as int]);
        }
        assert(is_way_out(m, u, seed, hops));
    }
    if is_way_out(m, t, seed, hops) {
        assert forall|i: int| 0 <= i < t.edges.len() implies !skip[(
        #[trigger] t.edges[i]) as int] by {}
        every_way_out_is_collected(w, t, skip, 1, reach + 1);
        let k = choose|k: int| 0 <= k < all.len() && all[k] == t;
        if k < kept.len() {
            assert(r[k] == m.path_of(t));
        } else {
            assert forall|x: int| 0 <= x < r.len() implies (#[trigger] r[x]).hop_count
                <= t.edges.len() by {
                assert(kept[x] == all[x]);
                assert(all[x].edges.len() <= all[k].edges.len());
            }
        }
    }
}

/// Whether a trail leads out from a node over one or two edges and at most so many, none
/// of them a backlink.
pub open spec fn is_way_out(m: RagModel, t: TrailModel, seed: usize, hops: nat) -> bool {
    &&& t.is_simple(m.wiring())
    &&& t.nodes[0] == seed
    &&& 1 <= t.edges.len() <= 2
    &&& t.edges.len() <= hops
    &&& forall|i: int|
        0 <= i < t.edges.len() ==> m.edges[(#[trigger] t.edges[i]) as int].relation != "backlink"@
}

/// A seed names the node with its title or alias, white space around it aside; else the
/// node with the title or alias that it holds in double brackets; else the first node
/// that bears it as a tag, hashes and case aside. Where there is none it names none.
pub proof fn seed_names_its_node(m: RagModel, seed: Seq<char>)
    requires
        m.nodes.len() <= usize::MAX,
    ensures
        ({
            let s = trim(seed);
            let in_brackets = s.len() >= 4 && s[0] == '[' && s[1] == '[' && s[s.len() - 2] == ']'
                && s[s.len() - 1] == ']';
            let tag = lowercase(trim_start_char(s, '#'));
            &&& m.named(s) is Some ==> m.seed_node(seed) == m.named(s)
            &&& m.named(s) is None && in_brackets && m.named(s.subrange(2, s.len() - 2)) is Some
                ==> m.seed_node(seed) == m.named(s.subrange(2, s.len() - 2))
            &&& m.named(s) is None && !("[["@.is_prefix_of(s) && "]]"@.is_suffix_of(s))
                ==> is_first_tagged(m, tag, m.seed_node(seed))
            &&& m.named(s) is None && in_brackets && m.named(s.subrange(2, s.len() - 2)) is None
                ==> is_first_tagged(m, tag, m.seed_node(seed))
        }),
{
    let s = trim(seed);
    let tag = lowercase(trim_start_char(s, '#'));
    lemma_first_tagged(m, tag, 0);
    reveal_strlit("[[");
    reveal_strlit("]]");
    if s.len() >= 4 && s[0] == '[' && s[1] == '[' && s[s.len() - 2] == ']' && s[s.len() - 1] == ']' {
        assert("[["@ =~= s.take(2));
        assert("]]"@ =~= s.skip(s.len() - 2));
        assert("[["@.is_prefix_of(s));
        assert("]]"@.is_suffix_of(s));
    }
}

/// Whether this is the first node that bears a tag, or none bears it.
pub open spec fn is_first_tagged(m: RagModel, tag: Seq<char>, n: Option<usize>) -> bool {
    match n {
        Some(n) => n < m.nodes.len() && bears(m, n as int, tag) && forall|i: int|
            0 <= i < n ==> !#[trigger] bears(m, i, tag),
        None => forall|i: int| 0 <= i < m.nodes.len() ==> !#[trigger] bears(m, i, tag),
    }
}

/// Whether a node bears a tag, hashes and the case of ASCII letters aside.
pub open spec fn bears(m: RagModel, n: int, tag: Seq<char>) -> bool {
    exists|k: int|
        0 <= k < m.nodes[n].tags.len() && same_ignoring_case(
            trim_start_char(#[trigger] m.nodes[n].tags[k], '#'),
            tag,
        )
}

proof fn lemma_first_tagged(m: RagModel, tag: Seq<char>, i: int)
    requires
        0 <= i <= m.nodes.len(),
        m.nodes.len() <= usize::MAX,
    ensures
        match m.first_tagged(tag, i) {
            Some(n) => i <= n < m.nodes.len() && bears(m, n as int, tag) && forall|j: int|
                i <= j < n ==> !#[trigger] bears(m, j, tag),
            None => forall|j: int| i <= j < m.nodes.len() ==> !#[trigger] bears(m, j, tag),
        },
    decreases m.nodes.len() - i,
{
    if i < m.nodes.len() {
        assert(tagged(m.nodes[i].tags, tag) == bears(m, i, tag));
        if !tagged(m.nodes[i].tags, tag) {
            lemma_first_tagged(m, tag, i + 1);
        }
    }
}

/// Every seed that names a node has it among the nodes of the seeds, once, and nothing
/// else is among them.
pub proof fn seeds_name_their_nodes(m: RagModel, seeds: Seq<Seq<char>>)
    ensures
        m.seed_nodes(seeds).no_duplicates(),
        forall|n: usize| #[trigger]
            m.seed_nodes(seeds).contains(n) <==> exists|i: int|
                0 <= i < seeds.len() && m.seed_node(#[trigger] seeds[i]) == Some(n),
    decreases seeds.len(),
{
    let r = m.seed_nodes(seeds);
    if seeds.len() > 0 {
        let rest = seeds.drop_last();
        let before = m.seed_nodes(rest);
        seeds_name_their_nodes(m, rest);
        assert forall|n: usize| #[trigger] r.contains(n) <==> exists|i: int|
            0 <= i < seeds.len() && m.seed_node(#[trigger] seeds[i]) == Some(n) by {
            if r.contains(n) {
                let k = choose|k: int| 0 <= k < r.len() && r[k] == n;
                if k < before.len() {
                    assert(before[k] == n);
                    assert(before.contains(n));
                    let i = choose|i: int|
                        0 <= i < rest.len() && m.seed_node(#[trigger] rest[i]) == Some(n);
                    assert(seeds[i] == rest[i]);
                } else {
                    assert(m.seed_node(seeds[seeds.len() - 1]) == Some(n));
                }
            }
            if exists|i: int| 0 <= i < seeds.len() && m.seed_node(#[trigger] seeds[i]) == Some(n) {
                let i = choose|i: int|
                    0 <= i < seeds.len() && m.seed_node(#[trigger] seeds[i]) == Some(n);
                if i < rest.len() {
                    assert(rest[i] == seeds[i]);
                    assert(before.contains(n));
                }
                if before.contains(n) {
                    let k = choose|k: int| 0 <= k < before.len() && before[k] == n;
                    assert(r[k] == n);
                } else {
                    assert(r[before.len() as int] == n);
                }
            }
        }
    }
}

// ---------------------------------------------------------------------------
// Trees
// ---------------------------------------------------------------------------

/// The nodes of the tree that are among the terminals, or those that are not.
pub open spec fn tree_part(tree: Seq<usize>, terminals: Seq<usize>, inside: bool) -> Seq<usize>
    decreases tree.len(),
{
    if tree.len() == 0 {
        Seq::empty()
    } else {
        let before = tree_part(tree.drop_last(), terminals, inside);
        if terminals.contains(tree.last()) == inside {
            before.push(tree.last())
        } else {
            before
        }
    }
}

impl RagModel {
    /// The tree that grew in these steps.
    pub open spec fn tree_of(self, terminals: Seq<usize>, steps: Seq<Seq<usize>>) -> TreeModel {
        let tree = joined(self.wiring(), terminals[0], steps);
        TreeModel {
            terminal_nodes: self.titles(tree_part(tree, terminals, true)),
            steiner_nodes: self.titles(tree_part(tree, terminals, false)),
            edges: self.path_edges(step_edges(steps)),
            total_weight: chain_weight(self.weights(), step_edges(steps)),
        }
    }

    /// Whether a tree grew from the first terminal by joining the nearest one
    /// that was left by a shortest way, again and again, until none could be
    /// reached.
    pub open spec fn is_steiner(self, terminals: Seq<usize>, tree: TreeModel) -> bool {
        exists|steps: Seq<Seq<usize>>| #[trigger]
            is_growth(self.wiring(), self.weights(), terminals, steps) && is_exhausted(
                self.wiring(),
                joined(self.wiring(), terminals[0], steps),
                left_after(self.wiring(), terminals, steps),
            ) && tree == self.tree_of(terminals, steps)
    }

    /// What is told of a node.
    pub open spec fn context_of(self, n: usize, include_content: bool) -> ContextModel {
        let node = self.nodes[n as int];
        ContextModel {
            title: node.title,
            path: node.path,
            tags: node.tags,
            word_count: node.word_count,
            pagerank: node.pagerank,
            snippet: if include_content {
                node.snippet
            } else {
                None
            },
        }
    }

    /// What is told of the notes with these names.
    pub open spec fn contexts_of(self, names: Seq<Seq<char>>, include_content: bool) -> Seq<
        ContextModel,
    >
        decreases names.len(),
    {
        if names.len() == 0 {
            Seq::empty()
        } else {
            let before = self.contexts_of(names.drop_last(), include_content);
            match self.seed_node(names.last()) {
                Some(n) => before.push(self.context_of(n, include_content)),
                None => before,
            }
        }
    }
}

/// The nodes of these ways, one way after the other.
pub open spec fn path_nodes(ps: Seq<PathModel>) -> Seq<Seq<char>>
    decreases ps.len(),
{
    if ps.len() == 0 {
        Seq::empty()
    } else {
        path_nodes(ps.drop_last()) + ps.last().nodes
    }
}

/// The names that ways and a tree involve, the seeds first.
pub open spec fn involved(
    seeds: Seq<Seq<char>>,
    paths: Seq<PathModel>,
    tree: Option<TreeModel>,
) -> Seq<Seq<char>> {
    crate::diagnostics::all_once(
        match tree {
            Some(t) => seeds + path_nodes(paths) + t.terminal_nodes + t.steiner_nodes,
            None => seeds + path_nodes(paths),
        },
    )
}

/// Whether one note is more central than another.
pub open spec fn more_central(a: ContextModel, b: ContextModel) -> bool {
    a.pagerank.key > b.pagerank.key
}

fn context_less(a: &NodeContext, b: &NodeContext) -> (r: bool)
    ensures
        r == more_central(a@, b@),
{
    a.pagerank.key > b.pagerank.key
}

impl GraphRagEngine {
    fn part_of(&self, tree: &Vec<usize>, terminals: &Vec<usize>, inside: bool) -> (r: Vec<usize>)
        requires
            forall|i: int| 0 <= i < tree@.len() ==> #[trigger] tree@[i] < self@.nodes.len(),
        ensures
            r@ == tree_part(tree@, terminals@, inside),
            forall|i: int| 0 <= i < r@.len() ==> #[trigger] r@[i] < self@.nodes.len(),
    {
        let mut out: Vec<usize> = Vec::new();
        let mut i: usize = 0;
        while i < tree.len()
            invariant
                i <= tree@.len(),
                forall|i: int| 0 <= i < tree@.len() ==> #[trigger] tree@[i] < self@.nodes.len(),
                out@ == tree_part(tree@.take(i as int), terminals@, inside),
                forall|i: int| 0 <= i < out@.len() ==> #[trigger] out@[i] < self@.nodes.len(),
            decreases tree.len() - i,
        {
            assert(tree@.take(i as int + 1).drop_last() =~= tree@.take(i as int));
            let n: usize = tree[i];
            assert(tree@[i as int] < self@.nodes.len());
            if holds_number(terminals, n) == inside {
                out.push(n);
            }
            i += 1;
        }
        assert(tree@.take(i as int) =~= tree@);
        out
    }

    /// A tree that connects the notes that the seeds name, as far as they can be
    /// reached; none where no seed names a note.
    pub fn extract_steiner_tree(&self, seeds: &Vec<String>) -> (r: Option<SteinerTree>)
        requires
            self.wf(),
        ensures
            match r {
                None => self@.seed_nodes(views(seeds@)).len() == 0,
                Some(tree) => self@.seed_nodes(views(seeds@)).len() > 0 && self@.is_steiner(
                    self@.seed_nodes(views(seeds@)),
                    tree@,
                ),
            },
    {
        let terminals = self.resolve_seeds(seeds);
        if terminals.len() == 0 {
            return None;
        }
        assert(self.wiring@ == self@.wiring());
        proof {
            let weights = self@.weights();
            assert forall|e: int| 0 <= e < weights.len() implies 1 <= #[trigger] weights[e]
                <= crate::steiner::MAX_WEIGHT by {
                assert(weights[e] == self@.edges[e].weight);
            }
        }
        let growth = grow_tree(&self.wiring, &self.weights, self.nodes.len(), &terminals);
        let inner = self.part_of(&growth.nodes, &terminals, true);
        let outer = self.part_of(&growth.nodes, &terminals, false);
        let tree = SteinerTree {
            terminal_nodes: self.title_list(&inner),
            steiner_nodes: self.title_list(&outer),
            edges: self.edge_list(&growth.edges),
            total_weight: growth.weight,
        };
        proof {
            let steps = choose|steps: Seq<Seq<usize>>| #[trigger]
                is_growth(self@.wiring(), self@.weights(), terminals@, steps) && is_exhausted(
                    self@.wiring(),
                    joined(self@.wiring(), terminals@[0], steps),
                    left_after(self@.wiring(), terminals@, steps),
                ) && growth.nodes@ == joined(self@.wiring(), terminals@[0], steps)
                    && growth.edges@ == step_edges(steps);
            assert(tree@ == self@.tree_of(terminals@, steps));
        }
        Some(tree)
    }

    fn context(&self, n: usize, include_content: bool) -> (r: NodeContext)
        requires
            n < self@.nodes.len(),
        ensures
            r@ == self@.context_of(n, include_content),
    {
        assert(views(self.nodes@)[n as int] == self.nodes@[n as int]@);
        let node = &self.nodes[n];
        NodeContext {
            title: node.title.clone(),
            path: clone_opt(&node.path),
            tags: clone_strings(&node.tags),
            word_count: node.word_count,
            pagerank: node.pagerank.clone(),
            snippet: if include_content {
                clone_opt(&node.snippet)
            } else {
                None
            },
        }
    }
}

fn push_all_once(out: &mut Vec<String>, more: &Vec<String>, Ghost(base): Ghost<Seq<Seq<char>>>)
    requires
        views(old(out)@) == crate::diagnostics::all_once(base),
    ensures
        views(final(out)@) == crate::diagnostics::all_once(base + views(more@)),
{
    let ghost all = views(more@);
    let mut i: usize = 0;
    assert(base + all.take(0) =~= base);
    while i < more.len()
        invariant
            i <= more@.len(),
            all == views(more@),
            views(out@) == crate::diagnostics::all_once(base + all.take(i as int)),
        decreases more.len() - i,
    {
        assert((base + all.take(i as int + 1)).drop_last() =~= base + all.take(i as int));
        assert((base + all.take(i as int + 1)).last() == more@[i as int]@);
        crate::diagnostics::push_once(out, more[i].as_str());
        i += 1;
    }
    assert(all.take(i as int) =~= all);
}

fn involved_names(seeds: &Vec<String>, paths: &Vec<GraphPath>, tree: &Option<SteinerTree>) -> (r: Vec<
    String,
>)
    ensures
        views(r@) == involved(views(seeds@), views(paths@), opt_view(*tree)),
{
    broadcast use group_views;

    let ghost ps = views(paths@);
    let ghost base = views(seeds@);
    let mut out: Vec<String> = Vec::new();
    push_all_once(&mut out, seeds, Ghost(Seq::empty()));
    assert(Seq::<Seq<char>>::empty() + base =~= base);
    let mut i: usize = 0;
    assert(base + path_nodes(ps.take(0)) =~= base);
    while i < paths.len()
        invariant
            i <= paths@.len(),
            ps == views(paths@),
            views(out@) == crate::diagnostics::all_once(base + path_nodes(ps.take(i as int))),
        decreases paths.len() - i,
    {
        assert(ps.take(i as int + 1).drop_last() =~= ps.take(i as int));
        let ghost so_far = path_nodes(ps.take(i as int));
        push_all_once(&mut out, &paths[i].nodes, Ghost(base + so_far));
        assert((base + so_far) + views(paths@[i as int].nodes@) =~= base + (so_far + views(
            paths@[i as int].nodes@,
        )));
        i += 1;
    }
    assert(ps.take(i as int) =~= ps);
    if let Some(t) = tree {
        push_all_once(&mut out, &t.terminal_nodes, Ghost(base + path_nodes(ps)));
        push_all_once(
            &mut out,
            &t.steiner_nodes,
            Ghost(base + path_nodes(ps) + views(t.terminal_nodes@)),
        );
    }
    out
}

// ---------------------------------------------------------------------------
// Text
// ---------------------------------------------------------------------------

/// A number of tenths with two decimals.
pub open spec fn two_decimals(tenths: nat) -> Seq<char> {
    decimal(tenths / 10) + "."@ + decimal(tenths % 10) + "0"@
}

/// Names in double brackets, parted by commas.
pub open spec fn bracketed(names: Seq<Seq<char>>) -> Seq<char> {
    join(names.map_values(|s: Seq<char>| "[["@ + s + "]]"@), ", "@)
}

/// Tags with a hash each, parted by commas.
pub open spec fn hashed(tags: Seq<Seq<char>>) -> Seq<char> {
    join(
        tags.map_values(
            |t: Seq<char>|
                if "#"@.is_prefix_of(t) {
                    t
                } else {
                    "#"@ + t
                },
        ),
        ", "@,
    )
}

/// The text with the first `n` ways listed.
pub open spec fn listing_paths(md: Seq<char>, ps: Seq<PathModel>, n: int) -> Seq<char>
    decreases n,
{
    if n <= 0 {
        md
    } else {
        listing_paths(md, ps, n - 1) + decimal(n as nat) + ". `"@ + linearized(ps[n - 1]) + "`\n"@
    }
}

/// The text with a note told.
pub open spec fn telling(md: Seq<char>, c: ContextModel, include_content: bool) -> Seq<char> {
    let head = md + "### [["@ + c.title + "]]\n"@;
    let file = match c.path {
        Some(p) => head + "- **File**: `"@ + p + "`\n"@,
        None => head,
    };
    let tags = if c.tags.len() > 0 {
        file + "- **Tags**: "@ + hashed(c.tags) + "\n"@
    } else {
        file
    };
    let rank = tags + "- **Centrality (PageRank)**: "@ + c.pagerank.long + "\n"@;
    let text = match c.snippet {
        Some(s) if include_content && trim(s).len() > 0 => rank + "\n```markdown\n"@ + trim(s)
            + "\n```\n"@,
        _ => rank,
    };
    text + "\n"@
}

/// The text with the first `n` notes told.
pub open spec fn telling_all(
    md: Seq<char>,
    cs: Seq<ContextModel>,
    include_content: bool,
    n: int,
) -> Seq<char>
    decreases n,
{
    if n <= 0 {
        md
    } else {
        telling(telling_all(md, cs, include_content, n - 1), cs[n - 1], include_content)
    }
}

/// The text that tells of ways, a tree and notes.
pub open spec fn context_text(
    seeds: Seq<Seq<char>>,
    paths: Seq<PathModel>,
    tree: Option<TreeModel>,
    nodes: Seq<ContextModel>,
    include_content: bool,
) -> Seq<char> {
    let head = "# Knowledge Graph Context\n\n"@ + "## Connective Reasoning Paths\n"@;
    let listed = if paths.len() == 0 {
        head + "- *No multi-hop connective paths found within specified hop boundary.*\n\n"@
    } else {
        listing_paths(head, paths, paths.len() as int) + "\n"@
    };
    let named = listed + "## Graph Context Summary\n"@ + "- **Seed Concepts**: "@ + bracketed(seeds)
        + "\n"@;
    let treed = match tree {
        Some(t) => {
            let bridged = if t.steiner_nodes.len() > 0 {
                named + "- **Steiner Bridge Concepts**: "@ + bracketed(t.steiner_nodes) + "\n"@
            } else {
                named
            };
            bridged + "- **Steiner Tree Weight**: "@ + two_decimals(t.total_weight) + "\n"@
        },
        None => named,
    };
    let counted = treed + "- **Total Connective Paths**: "@ + decimal(paths.len()) + "\n"@
        + "- **Sub-graph Node Count**: "@ + decimal(nodes.len()) + "\n\n"@;
    if nodes.len() == 0 {
        counted
    } else {
        telling_all(
            counted + "## Entity Details & Evidence\n"@,
            nodes,
            include_content,
            nodes.len() as int,
        )
    }
}

fn bracketed_text(names: &Vec<String>) -> (r: String)
    ensures
        r@ == bracketed(views(names@)),
{
    broadcast use group_views;

    let ghost wanted = views(names@).map_values(|s: Seq<char>| "[["@ + s + "]]"@);
    let mut out: Vec<String> = Vec::new();
    let mut i: usize = 0;
    while i < names.len()
        invariant
            i <= names@.len(),
            wanted == views(names@).map_values(|s: Seq<char>| "[["@ + s + "]]"@),
            views(out@) == wanted.take(i as int),
        decreases names.len() - i,
    {
        let mut s = "[[".to_owned();
        s.append(names[i].as_str());
        s.append("]]");
        out.push(s);
        i += 1;
        assert(wanted.take(i as int) =~= wanted.take(i as int - 1).push(wanted[i as int - 1]));
    }
    assert(wanted.take(i as int) =~= wanted);
    str_join(&out, ", ")
}

fn hashed_text(tags: &Vec<String>) -> (r: String)
    ensures
        r@ == hashed(views(tags@)),
{
    broadcast use group_views;

    let ghost wanted = views(tags@).map_values(
        |t: Seq<char>|
            if "#"@.is_prefix_of(t) {
                t
            } else {
                "#"@ + t
            },
    );
    let mut out: Vec<String> = Vec::new();
    let mut i: usize = 0;
    while i < tags.len()
        invariant
            i <= tags@.len(),
            wanted == views(tags@).map_values(
                |t: Seq<char>|
                    if "#"@.is_prefix_of(t) {
                        t
                    } else {
                        "#"@ + t
                    },
            ),
            views(out@) == wanted.take(i as int),
        decreases tags.len() - i,
    {
        if str_starts_with(tags[i].as_str(), "#") {
            out.push(tags[i].clone());
        } else {
            let mut s = "#".to_owned();
            s.append(tags[i].as_str());
            out.push(s);
        }
        i += 1;
        assert(wanted.take(i as int) =~= wanted.take(i as int - 1).push(wanted[i as int - 1]));
    }
    assert(wanted.take(i as int) =~= wanted);
    str_join(&out, ", ")
}

fn push_two_decimals(out: &mut String, tenths: u64)
    ensures
        final(out)@ == old(out)@ + two_decimals(tenths as nat),
{
    let ghost before = out@;
    let mut s = to_decimal(tenths / 10);
    s.append(".");
    let d = to_decimal(tenths % 10);
    s.append(d.as_str());
    s.append("0");
    out.append(s.as_str());
}

fn tell(md: &mut String, c: &NodeContext, include_content: bool)
    ensures
        final(md)@ == telling(old(md)@, c@, include_content),
{
    md.append("### [[");
    md.append(c.title.as_str());
    md.append("]]\n");
    if let Some(p) = &c.path {
        md.append("- **File**: `");
        md.append(p.as_str());
        md.append("`\n");
    }
    if c.tags.len() > 0 {
        md.append("- **Tags**: ");
        let tags = hashed_text(&c.tags);
        md.append(tags.as_str());
        md.append("\n");
    }
    md.append("- **Centrality (PageRank)**: ");
    md.append(c.pagerank.long.as_str());
    md.append("\n");
    if include_content {
        if let Some(s) = &c.snippet {
            let clean = str_trim(s.as_str());
            if !clean.as_str().is_empty() {
                md.append("\n```markdown\n");
                md.append(clean.as_str());
                md.append("\n```\n");
            }
        }
    }
    md.append("\n");
}

impl GraphRagEngine {
    /// Tells of ways, a tree and notes in Markdown.
    pub fn build_markdown_context(
        seeds: &Vec<String>,
        paths: &Vec<GraphPath>,
        steiner: &Option<SteinerTree>,
        nodes: &Vec<NodeContext>,
        include_content: bool,
    ) -> (r: String)
        ensures
            r@ == context_text(
                views(seeds@),
                views(paths@),
                opt_view(*steiner),
                views(nodes@),
                include_content,
            ),
    {
        let mut md = "# Knowledge Graph Context\n\n".to_owned();
        md.append("## Connective Reasoning Paths\n");
        if paths.len() == 0 {
            md.append(
                "- *No multi-hop connective paths found within specified hop boundary.*\n\n",
            );
        } else {
            let ghost head = md@;
            let n: usize = paths.len();
            let mut i: usize = 0;
            while i < n
                invariant
                    i <= n,
                    n == paths@.len(),
                    md@ == listing_paths(head, views(paths@), i as int),
                decreases n - i,
            {
                assert(views(paths@)[i as int] == paths@[i as int]@);
                push_decimal(&mut md, i + 1);
                md.append(". `");
                let text = paths[i].to_linearized_string();
                md.append(text.as_str());
                md.append("`\n");
                i += 1;
            }
            md.append("\n");
        }
        md.append("## Graph Context Summary\n");
        md.append("- **Seed Concepts**: ");
        let seed_list = bracketed_text(seeds);
        md.append(seed_list.as_str());
        md.append("\n");
        if let Some(t) = steiner {
            if t.steiner_nodes.len() > 0 {
                md.append("- **Steiner Bridge Concepts**: ");
                let bridges = bracketed_text(&t.steiner_nodes);
                md.append(bridges.as_str());
                md.append("\n");
            }
            md.append("- **Steiner Tree Weight**: ");
            push_two_decimals(&mut md, t.total_weight);
            md.append("\n");
        }
        md.append("- **Total Connective Paths**: ");
        push_decimal(&mut md, paths.len());
        md.append("\n");
        md.append("- **Sub-graph Node Count**: ");
        push_decimal(&mut md, nodes.len());
        md.append("\n\n");
        if nodes.len() > 0 {
            md.append("## Entity Details & Evidence\n");
            let ghost head = md@;
            let mut i: usize = 0;
            while i < nodes.len()
                invariant
                    i <= nodes@.len(),
                    md@ == telling_all(head, views(nodes@), include_content, i as int),
                decreases nodes.len() - i,
            {
                assert(views(nodes@)[i as int] == nodes@[i as int]@);
                tell(&mut md, &nodes[i], include_content);
                i += 1;
            }
        }
        md
    }

    /// Extracts what connects the seeds: the ways, a tree, what is known of the
    /// notes involved with the most central first, and a text that tells it all.
    pub fn extract_context(
        &self,
        seeds: &Vec<String>,
        max_hops: usize,
        max_paths: usize,
        include_content: bool,
    ) -> (r: GraphRagResult)
        requires
            self.wf(),
        ensures
            views(r.seeds@) == views(seeds@),
            views(r.paths@) == self@.paths(views(seeds@), max_hops as nat, max_paths as nat),
            match r.steiner_tree {
                None => self@.seed_nodes(views(seeds@)).len() == 0,
                Some(tree) => self@.seed_nodes(views(seeds@)).len() > 0 && self@.is_steiner(
                    self@.seed_nodes(views(seeds@)),
                    tree@,
                ),
            },
            views(r.involved_nodes@) == sorted_by(
                self@.contexts_of(
                    involved(views(seeds@), views(r.paths@), opt_view(r.steiner_tree)),
                    include_content,
                ),
                |a: ContextModel, b: ContextModel| more_central(a, b),
            ),
            r.markdown_context@ == context_text(
                views(seeds@),
                views(r.paths@),
                opt_view(r.steiner_tree),
                views(r.involved_nodes@),
                include_content,
            ),
    {
        broadcast use group_views;

        let paths = self.extract_paths(seeds, max_hops, max_paths);
        let steiner_tree = self.extract_steiner_tree(seeds);
        let names = involved_names(seeds, &paths, &steiner_tree);
        let ghost all = views(names@);
        let mut found: Vec<NodeContext> = Vec::new();
        let mut i: usize = 0;
        while i < names.len()
            invariant
                i <= names@.len(),
                all == views(names@),
                self.wf(),
                views(found@) == self@.contexts_of(all.take(i as int), include_content),
            decreases names.len() - i,
        {
            assert(all.take(i as int + 1).drop_last() =~= all.take(i as int));
            if let Some(n) = self.resolve_seed(names[i].as_str()) {
                found.push(self.context(n, include_content));
            }
            i += 1;
        }
        assert(all.take(i as int) =~= all);
        let ghost lt = |a: NodeContext, b: NodeContext| more_central(a@, b@);
        let ghost lt_view = |a: ContextModel, b: ContextModel| more_central(a, b);
        proof {
            lemma_sorted_views(found@, lt, lt_view);
        }
        let involved_nodes = sort_by(found, context_less, Ghost(lt));
        let markdown_context = GraphRagEngine::build_markdown_context(
            seeds,
            &paths,
            &steiner_tree,
            &involved_nodes,
            include_content,
        );
        GraphRagResult {
            seeds: clone_strings(seeds),
            paths,
            steiner_tree,
            involved_nodes,
            markdown_context,
        }
    }
}

// ---------------------------------------------------------------------------
// What holds of trees and of what is told
// ---------------------------------------------------------------------------

proof fn lemma_tree_part(tree: Seq<usize>, terminals: Seq<usize>, inside: bool)
    ensures
        tree_part(tree, terminals, inside) == tree.filter(
            |n: usize| terminals.contains(n) == inside,
        ),
    decreases tree.len(),
{
    reveal(Seq::filter);
    if tree.len() > 0 {
        lemma_tree_part(tree.drop_last(), terminals, inside);
    } else {
        assert(tree_part(tree, terminals, inside) =~= tree);
    }
}

proof fn lemma_tree_edges(m: WiringModel, weights: Seq<u32>, terminals: Seq<usize>, steps: Seq<Seq<usize>>)
    requires
        is_growth(m, weights, terminals, steps),
        terminals.len() > 0,
    ensures
        forall|e: int|
            0 <= e < step_edges(steps).len() ==> (#[trigger] step_edges(steps)[e]) < m.ends.len()
                && joined(m, terminals[0], steps).contains(m.ends[step_edges(steps)[e] as int].0)
                && joined(m, terminals[0], steps).contains(m.ends[step_edges(steps)[e] as int].1),
        joined(m, terminals[0], steps).contains(terminals[0]),
    decreases steps.len(),
{
    let all = joined(m, terminals[0], steps);
    if steps.len() > 0 {
        let rest = steps.drop_last();
        let before = joined(m, terminals[0], rest);
        let es = steps.last();
        let more = chain_nodes(m, es);
        lemma_tree_edges(m, weights, terminals, rest);
        assert forall|x: usize| #[trigger] before.contains(x) implies all.contains(x) by {
            let k = choose|k: int| 0 <= k < before.len() && before[k] == x;
            assert(all[k] == x);
        }
        assert forall|i: int| 0 <= i < es.len() implies all.contains(
            m.ends[(#[trigger] es[i]) as int].1,
        ) by {
            assert(more[i] == m.ends[es[i] as int].1);
            assert(all[before.len() + i] == more[i]);
        }
        let edges = step_edges(steps);
        let e0 = step_edges(rest);
        assert forall|e: int| 0 <= e < edges.len() implies (#[trigger] edges[e]) < m.ends.len()
            && all.contains(m.ends[edges[e] as int].0) && all.contains(
            m.ends[edges[e] as int].1,
        ) by {
            if e < e0.len() {
                assert(edges[e] == e0[e]);
            } else {
                let i = e - e0.len();
                assert(edges[e] == es[i]);
                if i > 0 {
                    assert(m.ends[es[i - 1] as int].1 == m.ends[es[i] as int].0);
                }
            }
        }
    } else {
        assert(all[0] == terminals[0]);
    }
}

/// A tree that connects seeds weighs what its edges weigh together, each edge connects
/// two of its nodes, its terminal nodes are those that are seeds and its other nodes
/// those that are not; the first seed is among them, and so is every seed that edges
/// lead to from the tree.
pub proof fn tree_connects_its_seeds(m: RagModel, terminals: Seq<usize>, tree: TreeModel)
    requires
        m.wf(),
        terminals.len() > 0,
        m.is_steiner(terminals, tree),
    ensures
        tree.total_weight == edges_weigh(tree.edges),
        exists|nodes: Seq<usize>, edges: Seq<usize>|
            {
                &&& #[trigger] nodes.contains(terminals[0])
                &&& tree.edges == #[trigger] m.path_edges(edges)
                &&& tree.terminal_nodes == m.titles(
                    nodes.filter(|n: usize| terminals.contains(n) == true),
                )
                &&& tree.steiner_nodes == m.titles(
                    nodes.filter(|n: usize| terminals.contains(n) == false),
                )
                &&& forall|e: int|
                    0 <= e < edges.len() ==> (#[trigger] edges[e]) < m.ends.len() && nodes.contains(
                        m.ends[edges[e] as int].0,
                    ) && nodes.contains(m.ends[edges[e] as int].1)
                &&& forall|e: int|
                    0 <= e < m.ends.len() && nodes.contains((#[trigger] m.ends[e]).0)
                        && terminals.contains(m.ends[e].1) ==> nodes.contains(m.ends[e].1)
            },
{
    let w = m.wiring();
    let steps = choose|steps: Seq<Seq<usize>>| #[trigger]
        is_growth(w, m.weights(), terminals, steps) && is_exhausted(
            w,
            joined(w, terminals[0], steps),
            left_after(w, terminals, steps),
        ) && tree == m.tree_of(terminals, steps);
    let nodes = joined(w, terminals[0], steps);
    let edges = step_edges(steps);
    lemma_tree_edges(w, m.weights(), terminals, steps);
    lemma_tree_part(nodes, terminals, true);
    lemma_tree_part(nodes, terminals, false);
    assert forall|i: int| 0 <= i < edges.len() implies #[trigger] edges[i] < m.edges.len() by {}
    lemma_edges_weigh(m, edges);
    assert(m.path_edges(edges) == tree.edges);
    assert forall|e: int|
        0 <= e < m.ends.len() && nodes.contains((#[trigger] m.ends[e]).0) && terminals.contains(
            m.ends[e].1,
        ) implies nodes.contains(m.ends[e].1) by {
        let es = seq![e as usize];
        assert(es[0] == e as usize);
        assert(connects(w, nodes, es, m.ends[e].1));
        tree_holds_what_it_reaches(w, m.weights(), terminals, steps, m.ends[e].1, es);
    }
}

/// What is told of the notes that are involved comes by falling rank: every involved
/// name that names a node has it told, and nothing else is.
pub proof fn involved_notes_come_most_central_first(
    m: RagModel,
    names: Seq<Seq<char>>,
    include_content: bool,
)
    ensures
        ({
            let r = sorted_by(
                m.contexts_of(names, include_content),
                |a: ContextModel, b: ContextModel| more_central(a, b),
            );
            &&& forall|i: int, j: int|
                0 <= i < j < r.len() ==> (#[trigger] r[i]).pagerank.key >= (
                #[trigger] r[j]).pagerank.key
            &&& forall|i: int|
                0 <= i < r.len() ==> is_context_of_some(m, names, include_content, #[trigger] r[i])
            &&& r.len() == names.filter(|name: Seq<char>| m.seed_node(name) is Some).len()
        }),
{
    let lt = |a: ContextModel, b: ContextModel| more_central(a, b);
    let all = m.contexts_of(names, include_content);
    let r = sorted_by(all, lt);
    lemma_contexts(m, names, include_content);
    sorted_is_in_order(all, lt);
    lemma_sorted_members(all, lt);
    assert forall|i: int, j: int| 0 <= i < j < r.len() implies (#[trigger] r[i]).pagerank.key >= (
    #[trigger] r[j]).pagerank.key by {
        assert(!lt(r[j], r[i]));
    }
    assert forall|i: int| 0 <= i < r.len() implies is_context_of_some(
        m,
        names,
        include_content,
        #[trigger] r[i],
    ) by {
        assert(all.contains(r[i]));
        let k = choose|k: int| 0 <= k < all.len() && all[k] == r[i];
        assert(is_context_of_some(m, names, include_content, all[k]));
    }
}

/// Whether this is what is told of the node of one of the names: all that the node
/// holds, its text only where content is asked for.
pub open spec fn is_context_of_some(
    m: RagModel,
    names: Seq<Seq<char>>,
    include_content: bool,
    c: ContextModel,
) -> bool {
    exists|k: int|
        {
            &&& 0 <= k < names.len()
            &&& m.seed_node(#[trigger] names[k]) is Some
            &&& tells_node(m, m.seed_node(names[k])->0, include_content, c)
        }
}

/// Whether this is what is told of a node.
pub open spec fn tells_node(m: RagModel, n: usize, include_content: bool, c: ContextModel) -> bool {
    &&& c.title == m.nodes[n as int].title
    &&& c.path == m.nodes[n as int].path
    &&& c.tags == m.nodes[n as int].tags
    &&& c.word_count == m.nodes[n as int].word_count
    &&& c.pagerank == m.nodes[n as int].pagerank
    &&& include_content ==> c.snippet == m.nodes[n as int].snippet
    &&& !include_content ==> c.snippet is None
}

proof fn lemma_contexts(m: RagModel, names: Seq<Seq<char>>, include_content: bool)
    ensures
        m.contexts_of(names, include_content).len() == names.filter(
            |name: Seq<char>| m.seed_node(name) is Some,
        ).len(),
        forall|i: int|
            0 <= i < m.contexts_of(names, include_content).len() ==> is_context_of_some(
                m,
                names,
                include_content,
                #[trigger] m.contexts_of(names, include_content)[i],
            ),
    decreases names.len(),
{
    reveal(Seq::filter);
    if names.len() > 0 {
        let rest = names.drop_last();
        lemma_contexts(m, rest, include_content);
        let before = m.contexts_of(rest, include_content);
        let r = m.contexts_of(names, include_content);
        assert forall|i: int| 0 <= i < r.len() implies is_context_of_some(
            m,
            names,
            include_content,
            #[trigger] r[i],
        ) by {
            if i < before.len() {
                assert(r[i] == before[i]);
                let k = choose|k: int|
                    {
                        &&& 0 <= k < rest.len()
                        &&& m.seed_node(#[trigger] rest[k]) is Some
                        &&& tells_node(m, m.seed_node(rest[k])->0, include_content, before[i])
                    };
                assert(names[k] == rest[k]);
            } else {
                let k = names.len() - 1;
                assert(tells_node(m, m.seed_node(names[k])->0, include_content, r[i]));
            }
        }
    }
}

// ---------------------------------------------------------------------------
// What is written
// ---------------------------------------------------------------------------

/// A way is written on edge by edge: the relation of each, and the note it leads to.
pub proof fn way_is_written_edge_by_edge(p: PathModel, q: PathModel, e: PathEdgeModel, node: Seq<char>)
    requires
        p.nodes.len() == p.edges.len() + 1,
        q.nodes == p.nodes.push(node),
        q.edges == p.edges.push(e),
    ensures
        linearized(q) == linearized(p) + " --["@ + e.relation + "]--> [["@ + node + "]]"@,
        p.edges.len() == 0 ==> linearized(p) == "[["@ + p.nodes[0] + "]]"@,
{
    lemma_same_writing(p, q, p.edges.len() as int);
}

proof fn lemma_same_writing(p: PathModel, q: PathModel, n: int)
    requires
        0 <= n <= p.edges.len(),
        p.nodes.len() == p.edges.len() + 1,
        p.nodes.len() <= q.nodes.len(),
        p.edges.len() <= q.edges.len(),
        forall|i: int| 0 <= i < p.nodes.len() ==> q.nodes[i] == #[trigger] p.nodes[i],
        forall|i: int| 0 <= i < p.edges.len() ==> q.edges[i] == #[trigger] p.edges[i],
    ensures
        linearized_edges(q, n) == linearized_edges(p, n),
    decreases n,
{
    assert(q.nodes[0] == p.nodes[0]);
    if n > 0 {
        lemma_same_writing(p, q, n - 1);
        assert(q.edges[n - 1] == p.edges[n - 1]);
        assert(q.nodes[n] == p.nodes[n]);
    }
}

proof fn lemma_held(a: Seq<char>, r: Seq<char>, line: Seq<char>)
    requires
        a.is_prefix_of(r),
        contains_str(a, line),
    ensures
        contains_str(r, line),
{
    let i = choose|i: int| occurs_at(a, line, i);
    assert(r.take(a.len() as int) =~= a);
    assert(r.subrange(i, i + line.len()) =~= a.subrange(i, i + line.len())) by {
        assert forall|k: int| i <= k < i + line.len() implies r[k] == a[k] by {
            assert(r.take(a.len() as int)[k] == a[k]);
        }
    }
    assert(occurs_at(r, line, i));
}

proof fn lemma_prefix_grows(a: Seq<char>, b: Seq<char>, more: Seq<char>)
    requires
        a.is_prefix_of(b),
    ensures
        a.is_prefix_of(b + more),
{
    assert(b.take(a.len() as int) =~= a);
    assert((b + more).take(a.len() as int) =~= a) by {
        assert forall|k: int| 0 <= k < a.len() implies (b + more)[k] == a[k] by {
            assert(b.take(a.len() as int)[k] == a[k]);
        }
    }
}

proof fn lemma_paths_listed(md: Seq<char>, ps: Seq<PathModel>, n: int, k: int)
    requires
        0 <= k < n <= ps.len(),
    ensures
        contains_str(
            listing_paths(md, ps, n),
            decimal((k + 1) as nat) + ". `"@ + linearized(ps[k]) + "`\n"@,
        ),
    decreases n,
{
    let before = listing_paths(md, ps, n - 1);
    let last = decimal(n as nat) + ". `"@ + linearized(ps[n - 1]) + "`\n"@;
    let r = listing_paths(md, ps, n);
    assert(r =~= before + last);
    if k == n - 1 {
        assert(r.subrange(before.len() as int, r.len() as int) =~= last);
        assert(occurs_at(r, last, before.len() as int));
    } else {
        lemma_paths_listed(md, ps, n - 1, k);
        assert(before =~= r.take(before.len() as int));
        lemma_held(before, r, decimal((k + 1) as nat) + ". `"@ + linearized(ps[k]) + "`\n"@);
    }
}

proof fn lemma_telling_grows(md: Seq<char>, c: ContextModel, include_content: bool)
    ensures
        md.is_prefix_of(telling(md, c, include_content)),
        contains_str(telling(md, c, include_content), "### [["@ + c.title + "]]\n"@),
{
    let line = "### [["@ + c.title + "]]\n"@;
    let head = md + "### [["@ + c.title + "]]\n"@;
    let r = telling(md, c, include_content);
    assert(head =~= md + line);
    assert(md =~= r.take(md.len() as int));
    assert(r.subrange(md.len() as int, md.len() as int + line.len() as int) =~= line);
    assert(occurs_at(r, line, md.len() as int));
}

proof fn lemma_telling_all(md: Seq<char>, cs: Seq<ContextModel>, include_content: bool, n: int, k: int)
    requires
        0 <= n <= cs.len(),
    ensures
        md.is_prefix_of(telling_all(md, cs, include_content, n)),
        0 <= k < n ==> contains_str(
            telling_all(md, cs, include_content, n),
            "### [["@ + cs[k].title + "]]\n"@,
        ),
    decreases n,
{
    if n > 0 {
        lemma_telling_all(md, cs, include_content, n - 1, k);
        let before = telling_all(md, cs, include_content, n - 1);
        let r = telling_all(md, cs, include_content, n);
        lemma_telling_grows(before, cs[n - 1], include_content);
        assert(r =~= before + r.skip(before.len() as int)) by {
            assert(r.take(before.len() as int) =~= before);
        }
        lemma_prefix_grows(md, before, r.skip(before.len() as int));
        if 0 <= k < n - 1 {
            lemma_held(before, r, "### [["@ + cs[k].title + "]]\n"@);
        }
    } else {
        assert(md =~= md.take(md.len() as int));
    }
}

/// The text that is extracted lists every way, numbered from 1, and has a heading for
/// every note that is involved.
pub proof fn context_tells_of_everything(
    seeds: Seq<Seq<char>>,
    paths: Seq<PathModel>,
    tree: Option<TreeModel>,
    nodes: Seq<ContextModel>,
    include_content: bool,
    p: int,
    c: int,
)
    ensures
        0 <= p < paths.len() ==> contains_str(
            context_text(seeds, paths, tree, nodes, include_content),
            decimal((p + 1) as nat) + ". `"@ + linearized(paths[p]) + "`\n"@,
        ),
        0 <= c < nodes.len() ==> contains_str(
            context_text(seeds, paths, tree, nodes, include_content),
            "### [["@ + nodes[c].title + "]]\n"@,
        ),
{
    let r = context_text(seeds, paths, tree, nodes, include_content);
    let head = "# Knowledge Graph Context\n\n"@ + "## Connective Reasoning Paths\n"@;
    let ways = listing_paths(head, paths, paths.len() as int);
    let listed = if paths.len() == 0 {
        head + "- *No multi-hop connective paths found within specified hop boundary.*\n\n"@
    } else {
        ways + "\n"@
    };
    let named = listed + "## Graph Context Summary\n"@ + "- **Seed Concepts**: "@ + bracketed(seeds)
        + "\n"@;
    let treed = match tree {
        Some(t) => {
            let bridged = if t.steiner_nodes.len() > 0 {
                named + "- **Steiner Bridge Concepts**: "@ + bracketed(t.steiner_nodes) + "\n"@
            } else {
                named
            };
            bridged + "- **Steiner Tree Weight**: "@ + two_decimals(t.total_weight) + "\n"@
        },
        None => named,
    };
    let counted = treed + "- **Total Connective Paths**: "@ + decimal(paths.len()) + "\n"@
        + "- **Sub-graph Node Count**: "@ + decimal(nodes.len()) + "\n\n"@;
    let entities = counted + "## Entity Details & Evidence\n"@;
    lemma_telling_all(entities, nodes, include_content, nodes.len() as int, c);
    if 0 <= p < paths.len() {
        lemma_paths_listed(head, paths, paths.len() as int, p);
        assert(ways =~= listed.take(ways.len() as int));
        assert(ways =~= named.take(ways.len() as int));
        assert(ways =~= treed.take(ways.len() as int));
        assert(ways =~= counted.take(ways.len() as int));
        assert(ways =~= entities.take(ways.len() as int));
        if nodes.len() > 0 {
            assert(r =~= entities + r.skip(entities.len() as int)) by {
                assert(r.take(entities.len() as int) =~= entities);
            }
            lemma_prefix_grows(ways, entities, r.skip(entities.len() as int));
        }
        lemma_held(ways, r, decimal((p + 1) as nat) + ". `"@ + linearized(paths[p]) + "`\n"@);
    }
}

/// Between two seeds no more ways are candidates than asked for, or one where none was
/// asked for, and around a single seed likewise.
pub proof fn no_pair_has_more_than_asked_for(
    m: RagModel,
    src: usize,
    dst: usize,
    hops: nat,
    limit: nat,
)
    ensures
        m.simple_paths(src, dst, hops, limit).len() <= limit || m.simple_paths(
            src,
            dst,
            hops,
            limit,
        ).len() == 1,
        m.radial_paths(src, hops, limit).len() <= limit || m.radial_paths(src, hops, limit).len()
            == 1,
        m.pair_paths(seq![src, dst], 2, hops, limit) == m.simple_paths(src, dst, hops, limit),
{
    let pair = seq![src, dst];
    lemma_first_of(
        collected(m.ends, src, Some(dst), m.all_edges(), 0, hops + 1),
        at_least_one(limit),
    );
    lemma_first_of(
        collected(m.ends, src, None, m.backward(), 1, hops + 1),
        at_least_one(limit),
    );
    assert(pair.len() == 2 && pair[0] == src && pair[1] == dst);
    let ways = m.simple_paths(src, dst, hops, limit);
    assert(m.paths_from(pair, 0, 1, hops, limit).len() == 0);
    assert(m.paths_from(pair, 0, 2, hops, limit) =~= ways);
    assert(m.paths_from(pair, 1, 2, hops, limit).len() == 0);
    assert(m.pair_paths(pair, 0, hops, limit).len() == 0);
    assert(m.pair_paths(pair, 1, hops, limit) =~= ways);
    assert(m.pair_paths(pair, 2, hops, limit) =~= ways);
}

} // verus!
