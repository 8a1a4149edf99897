//! The graph behind context extraction: notes, links in both directions, and
//! ties between notes that share a tag.

use crate::ast::{DocumentModel, LinkModel, LinkType, ParsedDocument};
use crate::diagnostics::in_range;
use crate::digraph::GRAPH_LIMIT;
use crate::graph::{no_rank, tag_name_list, tag_names, NodeType, Rank, RankModel};
use crate::steiner::MAX_WEIGHT;
use crate::text::{
    clone_strings, group_views, lowercase, opt_view, same, str_trim, str_trim_start_char,
    to_lowercase, trim, trim_start_char, views,
};
use crate::wiring::{ins, outs, Wiring, WiringModel};
use vstd::hash_map::StringHashMap;
use vstd::prelude::*;

verus! {

// ---------------------------------------------------------------------------
// Nodes and edges
// ---------------------------------------------------------------------------

/// A note.
#[derive(Debug)]
pub struct RagNode {
    pub title: String,
    pub path: Option<String>,
    pub node_type: NodeType,
    pub tags: Vec<String>,
    pub word_count: usize,
    pub pagerank: Rank,
    pub snippet: Option<String>,
}

/// A tie between notes.
#[derive(Debug)]
pub struct RagEdge {
    pub relation: String,
    /// In tenths; the heavier, the looser the tie.
    pub weight: u32,
}

/// What a `RagNode` says.
pub struct RagNodeModel {
    pub title: Seq<char>,
    pub path: Option<Seq<char>>,
    pub node_type: NodeType,
    pub tags: Seq<Seq<char>>,
    pub word_count: usize,
    pub pagerank: RankModel,
    pub snippet: Option<Seq<char>>,
}

/// What a `RagEdge` says.
pub struct RagEdgeModel {
    pub relation: Seq<char>,
    pub weight: u32,
}

impl View for RagNode {
    type V = RagNodeModel;

    open spec fn view(&self) -> RagNodeModel {
        RagNodeModel {
            title: self.title@,
            path: opt_view(self.path),
            node_type: self.node_type,
            tags: views(self.tags@),
            word_count: self.word_count,
            pagerank: self.pagerank@,
            snippet: opt_view(self.snippet),
        }
    }
}

impl View for RagEdge {
    type V = RagEdgeModel;

    open spec fn view(&self) -> RagEdgeModel {
        RagEdgeModel { relation: self.relation@, weight: self.weight }
    }
}

/// How a kind of link is called.
pub open spec fn relation_of(t: LinkType) -> Seq<char> {
    match t {
        LinkType::Wikilink => "wikilink"@,
        LinkType::Embed => "embed"@,
        LinkType::Markdown => "markdown"@,
    }
}

/// What a kind of link weighs.
pub open spec fn link_weight(t: LinkType) -> u32 {
    match t {
        LinkType::Wikilink => 10,
        LinkType::Embed => 9,
        LinkType::Markdown => 12,
    }
}

/// The notes that share a tag.
#[derive(Debug)]
pub struct TagGroup {
    pub tag: String,
    pub nodes: Vec<usize>,
}

impl View for TagGroup {
    type V = (Seq<char>, Seq<usize>);

    open spec fn view(&self) -> (Seq<char>, Seq<usize>) {
        (self.tag@, self.nodes@)
    }
}

/// A tag without leading hashes, in lower case.
pub open spec fn clean_tag(tag: Seq<char>) -> Seq<char> {
    lowercase(trim_start_char(tag, '#'))
}

/// The first group from `i` on with this tag, or the length.
pub open spec fn group_index(gs: Seq<(Seq<char>, Seq<usize>)>, tag: Seq<char>, i: int) -> int
    decreases gs.len() - i,
{
    if i >= gs.len() {
        gs.len() as int
    } else if gs[i].0 == tag {
        i
    } else {
        group_index(gs, tag, i + 1)
    }
}

/// The groups with note `n` in that of its tag.
pub open spec fn with_tagged(gs: Seq<(Seq<char>, Seq<usize>)>, tag: Seq<char>, n: usize) -> Seq<
    (Seq<char>, Seq<usize>),
> {
    let clean = clean_tag(tag);
    let i = group_index(gs, clean, 0);
    if i < gs.len() {
        gs.update(i, (clean, gs[i].1.push(n)))
    } else {
        gs.push((clean, seq![n]))
    }
}

/// The groups with note `n` in those of its tags.
pub open spec fn with_tags(gs: Seq<(Seq<char>, Seq<usize>)>, tags: Seq<Seq<char>>, n: usize) -> Seq<
    (Seq<char>, Seq<usize>),
>
    decreases tags.len(),
{
    if tags.len() == 0 {
        gs
    } else {
        with_tagged(with_tags(gs, tags.drop_last(), n), tags.last(), n)
    }
}

fn push_tagged(gs: &mut Vec<TagGroup>, tag: &str, n: usize)
    ensures
        views(final(gs)@) == with_tagged(views(old(gs)@), tag@, n),
{
    broadcast use group_views;

    let bare = str_trim_start_char(tag, '#');
    let clean = to_lowercase(bare.as_str());
    let ghost all = views(gs@);
    let mut i: usize = 0;
    while i < gs.len()
        invariant
            i <= gs@.len(),
            all == views(gs@),
            all == views(old(gs)@),
            clean@ == clean_tag(tag@),
            group_index(all, clean@, i as int) == group_index(all, clean@, 0),
        decreases gs.len() - i,
    {
        assert(all[i as int] == gs@[i as int]@);
        if same(gs[i].tag.as_str(), clean.as_str()) {
            let mut g = gs.remove(i);
            g.nodes.push(n);
            gs.insert(i, g);
            assert(views(gs@) =~= all.update(i as int, g@));
            return;
        }
        i += 1;
    }
    let mut nodes: Vec<usize> = Vec::new();
    nodes.push(n);
    assert(nodes@ =~= seq![n]);
    gs.push(TagGroup { tag: clean, nodes });
}

/// Every note in the groups is one of the first `n`.
pub open spec fn groups_in_range(gs: Seq<(Seq<char>, Seq<usize>)>, n: nat) -> bool {
    forall|i: int, j: int|
        0 <= i < gs.len() && 0 <= j < gs[i].1.len() ==> #[trigger] gs[i].1[j] < n
}

proof fn lemma_with_tagged(gs: Seq<(Seq<char>, Seq<usize>)>, tag: Seq<char>, n: usize, total: nat)
    requires
        groups_in_range(gs, total),
        n < total,
    ensures
        groups_in_range(with_tagged(gs, tag, n), total),
{
    let clean = clean_tag(tag);
    lemma_group_index(gs, clean, 0);
    let k = group_index(gs, clean, 0);
    let r = with_tagged(gs, tag, n);
    assert forall|i: int, j: int| 0 <= i < r.len() && 0 <= j < r[i].1.len() implies #[trigger] r[i].1[j]
        < total by {
        if i < gs.len() && (i != k || j < gs[i].1.len()) {
            assert(r[i].1[j] == gs[i].1[j]);
        }
    }
}

proof fn lemma_group_index(gs: Seq<(Seq<char>, Seq<usize>)>, tag: Seq<char>, i: int)
    requires
        0 <= i <= gs.len(),
    ensures
        i <= group_index(gs, tag, i) <= gs.len(),
    decreases gs.len() - i,
{
    if i < gs.len() && gs[i].0 != tag {
        lemma_group_index(gs, tag, i + 1);
    }
}

// ---------------------------------------------------------------------------
// The graph
// ---------------------------------------------------------------------------

/// Notes, the ties between them, and the names under which notes are found.
pub struct GraphRagEngine {
    pub wiring: Wiring,
    pub nodes: Vec<RagNode>,
    pub edges: Vec<RagEdge>,
    pub weights: Vec<u32>,
    pub by_title: StringHashMap<usize>,
    pub by_alias: StringHashMap<usize>,
}

/// What a `GraphRagEngine` holds. Edge `e` leads from `ends[e].0` to `ends[e].1`.
/// Titles and aliases are in lower case.
pub struct RagModel {
    pub nodes: Seq<RagNodeModel>,
    pub edges: Seq<RagEdgeModel>,
    pub ends: Seq<(usize, usize)>,
    pub by_title: Map<Seq<char>, usize>,
    pub by_alias: Map<Seq<char>, usize>,
}

/// The relation of an edge that leads back along a link.
pub open spec fn backlink() -> Seq<char> {
    "backlink"@
}

impl RagModel {
    /// The nodes and the edges between them.
    pub open spec fn wiring(self) -> WiringModel {
        WiringModel { nodes: self.nodes.len(), ends: self.ends }
    }

    /// What the edges weigh.
    pub open spec fn weights(self) -> Seq<u32> {
        self.edges.map_values(|e: RagEdgeModel| e.weight)
    }

    /// Every edge connects two nodes and has a weight, and every name leads to a
    /// node.
    pub open spec fn wf(self) -> bool {
        &&& self.wiring().wf()
        &&& self.edges.len() == self.ends.len()
        &&& forall|e: int|
            0 <= e < self.edges.len() ==> 1 <= (#[trigger] self.edges[e]).weight <= MAX_WEIGHT
        &&& in_range(self.by_title, self.nodes.len())
        &&& in_range(self.by_alias, self.nodes.len())
    }

    /// The graph is not too large.
    pub open spec fn fits(self) -> bool {
        self.nodes.len() <= GRAPH_LIMIT && self.ends.len() <= GRAPH_LIMIT
    }

    /// No node and no edge is lost on the way from one graph to the other.
    pub open spec fn within(self, other: RagModel) -> bool {
        self.nodes.len() <= other.nodes.len() && self.ends.len() <= other.ends.len()
    }

    /// The aliases leading to node `n`.
    pub open spec fn with_aliases(self, names: Seq<Seq<char>>, n: usize) -> RagModel
        decreases names.len(),
    {
        if names.len() == 0 {
            self
        } else {
            let before = self.with_aliases(names.drop_last(), n);
            RagModel { by_alias: before.by_alias.insert(lowercase(names.last()), n), ..before }
        }
    }

    /// The graph with a note and its names.
    pub open spec fn with_node(self, node: RagNodeModel, aliases: Seq<Seq<char>>) -> RagModel {
        let n = self.nodes.len() as usize;
        RagModel {
            nodes: self.nodes.push(node),
            edges: self.edges,
            ends: self.ends,
            by_title: self.by_title.insert(lowercase(node.title), n),
            by_alias: self.with_aliases(aliases, n).by_alias,
        }
    }

    /// The node with this title or alias.
    pub open spec fn named(self, name: Seq<char>) -> Option<usize> {
        let low = lowercase(name);
        if self.by_title.contains_key(low) {
            Some(self.by_title[low])
        } else if self.by_alias.contains_key(low) {
            Some(self.by_alias[low])
        } else {
            None
        }
    }

    /// The graph in which the target has a node: a dangling one is added where
    /// there is none.
    pub open spec fn with_target(self, name: Seq<char>) -> RagModel {
        if self.named(name) is Some {
            self
        } else {
            RagModel {
                nodes: self.nodes.push(dangling(name)),
                by_title: self.by_title.insert(lowercase(name), self.nodes.len() as usize),
                ..self
            }
        }
    }

    /// The node of a target once it has one.
    pub open spec fn target_node(self, name: Seq<char>) -> usize {
        match self.named(name) {
            Some(n) => n,
            None => self.nodes.len() as usize,
        }
    }

    /// The graph with an edge.
    pub open spec fn with_edge(self, a: usize, b: usize, edge: RagEdgeModel) -> RagModel {
        RagModel { edges: self.edges.push(edge), ends: self.ends.push((a, b)), ..self }
    }

    /// The graph with a link from node `source`, and the way back, which weighs
    /// a little more.
    pub open spec fn with_link(self, source: usize, name: Seq<char>, t: LinkType) -> RagModel {
        let n = self.target_node(name);
        self.with_target(name).with_edge(
            source,
            n,
            RagEdgeModel { relation: relation_of(t), weight: link_weight(t) },
        ).with_edge(
            n,
            source,
            RagEdgeModel { relation: backlink(), weight: (link_weight(t) + 3) as u32 },
        )
    }

    /// The graph with two notes tied both ways by a tag they share.
    pub open spec fn with_pair(self, u: usize, v: usize, relation: Seq<char>) -> RagModel {
        if u == v {
            self
        } else {
            let edge = RagEdgeModel { relation, weight: 15 };
            self.with_edge(u, v, edge).with_edge(v, u, edge)
        }
    }

    /// The graph with the `i`th note tied to those behind it, up to the `j`th.
    pub open spec fn with_row(self, ns: Seq<usize>, i: int, j: int, relation: Seq<char>) -> RagModel
        decreases j,
    {
        if j <= i + 1 || j <= 0 {
            self
        } else {
            self.with_row(ns, i, j - 1, relation).with_pair(ns[i], ns[j - 1], relation)
        }
    }

    /// The graph with the first `n` notes tied to all those behind them.
    pub open spec fn with_rows(self, ns: Seq<usize>, n: int, relation: Seq<char>) -> RagModel
        decreases n,
    {
        if n <= 0 {
            self
        } else {
            self.with_rows(ns, n - 1, relation).with_row(ns, n - 1, ns.len() as int, relation)
        }
    }

    /// The graph with the notes of a group tied to one another. A tag that more
    /// than fifty notes have says too little to tie them.
    pub open spec fn with_group(self, g: (Seq<char>, Seq<usize>)) -> RagModel {
        if g.1.len() > 1 && g.1.len() <= 50 {
            self.with_rows(g.1, g.1.len() as int, "tag:#"@ + g.0)
        } else {
            self
        }
    }

    /// The graph with the notes of these groups tied.
    pub open spec fn with_groups(self, gs: Seq<(Seq<char>, Seq<usize>)>) -> RagModel
        decreases gs.len(),
    {
        if gs.len() == 0 {
            self
        } else {
            self.with_groups(gs.drop_last()).with_group(gs.last())
        }
    }
}

/// The node of a note that does not exist.
pub open spec fn dangling(name: Seq<char>) -> RagNodeModel {
    RagNodeModel {
        title: name,
        path: None,
        node_type: NodeType::Dangling,
        tags: Seq::empty(),
        word_count: 0,
        pagerank: no_rank(),
        snippet: None,
    }
}

/// A graph without nodes.
pub open spec fn empty_rag() -> RagModel {
    RagModel {
        nodes: Seq::empty(),
        edges: Seq::empty(),
        ends: Seq::empty(),
        by_title: Map::empty(),
        by_alias: Map::empty(),
    }
}

proof fn lemma_aliases(g: RagModel, names: Seq<Seq<char>>, n: usize)
    ensures
        ({
            let r = g.with_aliases(names, n);
            &&& r.nodes == g.nodes
            &&& r.edges == g.edges
            &&& r.ends == g.ends
            &&& r.by_title == g.by_title
            &&& forall|k: Seq<char>| #[trigger]
                r.by_alias.contains_key(k) ==> r.by_alias[k] == n || (g.by_alias.contains_key(k)
                    && r.by_alias[k] == g.by_alias[k])
        }),
    decreases names.len(),
{
    if names.len() > 0 {
        lemma_aliases(g, names.drop_last(), n);
    }
}

/// Ties in a row only add edges.
pub proof fn lemma_row_prefix(
    g: RagModel,
    ns: Seq<usize>,
    i: int,
    j: int,
    to: int,
    relation: Seq<char>,
)
    requires
        j <= to,
    ensures
        g.with_row(ns, i, j, relation).within(g.with_row(ns, i, to, relation)),
    decreases to - j,
{
    if j < to {
        lemma_row_prefix(g, ns, i, j + 1, to, relation);
    }
}

proof fn lemma_row_grows(g: RagModel, ns: Seq<usize>, i: int, j: int, relation: Seq<char>)
    ensures
        g.within(g.with_row(ns, i, j, relation)),
        g.with_row(ns, i, j, relation).nodes == g.nodes,
    decreases j,
{
    if j > i + 1 && j > 0 {
        lemma_row_grows(g, ns, i, j - 1, relation);
    }
}

/// Ties in rows only add edges.
pub proof fn lemma_rows_prefix(g: RagModel, ns: Seq<usize>, n: int, to: int, relation: Seq<char>)
    requires
        0 <= n <= to,
    ensures
        g.with_rows(ns, n, relation).within(g.with_rows(ns, to, relation)),
    decreases to - n,
{
    if n < to {
        lemma_rows_prefix(g, ns, n + 1, to, relation);
        lemma_row_grows(g.with_rows(ns, n, relation), ns, n, ns.len() as int, relation);
    }
}

/// Ties in groups only add edges.
pub proof fn lemma_groups_prefix(g: RagModel, gs: Seq<(Seq<char>, Seq<usize>)>, n: int)
    requires
        0 <= n <= gs.len(),
    ensures
        g.with_groups(gs.take(n)).within(g.with_groups(gs)),
    decreases gs.len() - n,
{
    if n == gs.len() {
        assert(gs.take(n) =~= gs);
    } else {
        lemma_groups_prefix(g, gs, n + 1);
        assert(gs.take(n + 1).drop_last() =~= gs.take(n));
        let before = g.with_groups(gs.take(n));
        lemma_rows_prefix(before, gs[n].1, 0, gs[n].1.len() as int, "tag:#"@ + gs[n].0);
    }
}

// ---------------------------------------------------------------------------
// Building
// ---------------------------------------------------------------------------

impl View for GraphRagEngine {
    type V = RagModel;

    open spec fn view(&self) -> RagModel {
        RagModel {
            nodes: views(self.nodes@),
            edges: views(self.edges@),
            ends: self.wiring@.ends,
            by_title: self.by_title@,
            by_alias: self.by_alias@,
        }
    }
}

/// A note as it is stored: its identifier, path, title, length and aliases.
#[derive(Debug)]
pub struct DocRow {
    pub doc_id: String,
    pub path: String,
    pub title: String,
    pub word_count: usize,
    pub aliases: Vec<String>,
}

/// A tag as it is stored.
#[derive(Debug)]
pub struct TagRow {
    pub doc_id: String,
    pub tag: String,
}

/// A link as it is stored.
#[derive(Debug)]
pub struct LinkRow {
    pub source_doc_id: String,
    pub target_note: String,
    pub link_type: String,
}

/// The first chunk of a note as it is stored.
#[derive(Debug)]
pub struct SnippetRow {
    pub doc_id: String,
    pub content: String,
}

/// What a `DocRow` says.
pub struct DocRowModel {
    pub doc_id: Seq<char>,
    pub path: Seq<char>,
    pub title: Seq<char>,
    pub word_count: usize,
    pub aliases: Seq<Seq<char>>,
}

/// What a `LinkRow` says.
pub struct LinkRowModel {
    pub source_doc_id: Seq<char>,
    pub target_note: Seq<char>,
    pub link_type: Seq<char>,
}

impl View for DocRow {
    type V = DocRowModel;

    open spec fn view(&self) -> DocRowModel {
        DocRowModel {
            doc_id: self.doc_id@,
            path: self.path@,
            title: self.title@,
            word_count: self.word_count,
            aliases: views(self.aliases@),
        }
    }
}

impl View for TagRow {
    type V = (Seq<char>, Seq<char>);

    open spec fn view(&self) -> (Seq<char>, Seq<char>) {
        (self.doc_id@, self.tag@)
    }
}

impl View for LinkRow {
    type V = LinkRowModel;

    open spec fn view(&self) -> LinkRowModel {
        LinkRowModel {
            source_doc_id: self.source_doc_id@,
            target_note: self.target_note@,
            link_type: self.link_type@,
        }
    }
}

impl View for SnippetRow {
    type V = (Seq<char>, Seq<char>);

    open spec fn view(&self) -> (Seq<char>, Seq<char>) {
        (self.doc_id@, self.content@)
    }
}

/// The node of a note: its text is its first chunk, or else its first section.
pub open spec fn document_rag_node(doc: DocumentModel) -> RagNodeModel {
    RagNodeModel {
        title: doc.title,
        path: Some(doc.path),
        node_type: NodeType::Document,
        tags: tag_names(doc.tags),
        word_count: doc.word_count as usize,
        pagerank: no_rank(),
        snippet: if doc.chunks.len() > 0 {
            Some(doc.chunks[0].content)
        } else if doc.sections.len() > 0 {
            Some(doc.sections[0].content)
        } else {
            None
        },
    }
}

/// The node of a stored note.
pub open spec fn row_node(row: DocRowModel) -> RagNodeModel {
    RagNodeModel {
        title: row.title,
        path: Some(row.path),
        node_type: NodeType::Document,
        tags: Seq::empty(),
        word_count: row.word_count,
        pagerank: no_rank(),
        snippet: None,
    }
}

/// The kind of link that is stored under this name.
pub open spec fn stored_link_type(name: Seq<char>) -> LinkType {
    if name == "embed"@ {
        LinkType::Embed
    } else if name == "markdown"@ {
        LinkType::Markdown
    } else {
        LinkType::Wikilink
    }
}

/// The graph of these notes without their links, and the groups of their tags.
pub open spec fn noted(docs: Seq<DocumentModel>) -> (RagModel, Seq<(Seq<char>, Seq<usize>)>)
    decreases docs.len(),
{
    if docs.len() == 0 {
        (empty_rag(), Seq::empty())
    } else {
        let (g, gs) = noted(docs.drop_last());
        let doc = docs.last();
        (
            g.with_node(document_rag_node(doc), doc.frontmatter.aliases),
            with_tags(gs, tag_names(doc.tags), g.nodes.len() as usize),
        )
    }
}

impl RagModel {
    /// The graph with these links; a link whose target is blank is none.
    pub open spec fn with_doc_links(self, source: usize, links: Seq<LinkModel>) -> RagModel
        decreases links.len(),
    {
        if links.len() == 0 {
            self
        } else {
            let before = self.with_doc_links(source, links.drop_last());
            let name = trim(links.last().target_note);
            if name.len() == 0 {
                before
            } else {
                before.with_link(source, name, links.last().link_type)
            }
        }
    }

    /// The graph with the links of these notes.
    pub open spec fn with_all_links(self, docs: Seq<DocumentModel>) -> RagModel
        decreases docs.len(),
    {
        if docs.len() == 0 {
            self
        } else {
            let before = self.with_all_links(docs.drop_last());
            let low = lowercase(docs.last().title);
            if before.by_title.contains_key(low) {
                before.with_doc_links(before.by_title[low], docs.last().links)
            } else {
                before
            }
        }
    }

    /// The graph with these stored links of the notes that have identifiers.
    pub open spec fn with_stored_links(self, ids: Map<Seq<char>, usize>, links: Seq<LinkRowModel>)
        -> RagModel
        decreases links.len(),
    {
        if links.len() == 0 {
            self
        } else {
            let before = self.with_stored_links(ids, links.drop_last());
            let l = links.last();
            if ids.contains_key(l.source_doc_id) {
                before.with_link(
                    ids[l.source_doc_id],
                    l.target_note,
                    stored_link_type(l.link_type),
                )
            } else {
                before
            }
        }
    }

    /// The graph with these texts on the notes that have identifiers.
    pub open spec fn with_snippets(
        self,
        ids: Map<Seq<char>, usize>,
        rows: Seq<(Seq<char>, Seq<char>)>,
    ) -> RagModel
        decreases rows.len(),
    {
        if rows.len() == 0 {
            self
        } else {
            let before = self.with_snippets(ids, rows.drop_last());
            let (id, content) = rows.last();
            if ids.contains_key(id) {
                let n = ids[id] as int;
                let node = RagNodeModel { snippet: Some(content), ..before.nodes[n] };
                RagModel { nodes: before.nodes.update(n, node), ..before }
            } else {
                before
            }
        }
    }
}

/// The graph of these notes: the notes, then their links, then the ties by tags.
pub open spec fn rag_of(docs: Seq<DocumentModel>) -> RagModel {
    noted(docs).0.with_all_links(docs).with_groups(noted(docs).1)
}

/// The stored notes, and which node each identifier names.
pub open spec fn stored_notes(rows: Seq<DocRowModel>) -> (RagModel, Map<Seq<char>, usize>)
    decreases rows.len(),
{
    if rows.len() == 0 {
        (empty_rag(), Map::empty())
    } else {
        let (g, ids) = stored_notes(rows.drop_last());
        let row = rows.last();
        (
            g.with_node(row_node(row), row.aliases),
            ids.insert(row.doc_id, g.nodes.len() as usize),
        )
    }
}

/// The graph with the stored tags on their notes, and the groups of the tags.
pub open spec fn stored_tags(
    g: RagModel,
    ids: Map<Seq<char>, usize>,
    rows: Seq<(Seq<char>, Seq<char>)>,
) -> (RagModel, Seq<(Seq<char>, Seq<usize>)>)
    decreases rows.len(),
{
    if rows.len() == 0 {
        (g, Seq::empty())
    } else {
        let (h, gs) = stored_tags(g, ids, rows.drop_last());
        let (id, tag) = rows.last();
        if ids.contains_key(id) {
            let n = ids[id];
            let node = RagNodeModel { tags: h.nodes[n as int].tags.push(tag), ..h.nodes[n as int] };
            (RagModel { nodes: h.nodes.update(n as int, node), ..h }, with_tagged(gs, tag, n))
        } else {
            (h, gs)
        }
    }
}

/// The graph of what is stored.
pub open spec fn rag_of_rows(
    docs: Seq<DocRowModel>,
    tags: Seq<(Seq<char>, Seq<char>)>,
    links: Seq<LinkRowModel>,
    snippets: Seq<(Seq<char>, Seq<char>)>,
) -> RagModel {
    let (g, ids) = stored_notes(docs);
    let (h, gs) = stored_tags(g, ids, tags);
    h.with_stored_links(ids, links).with_snippets(ids, snippets).with_groups(gs)
}

proof fn lemma_doc_links_prefix(g: RagModel, source: usize, links: Seq<LinkModel>, n: int)
    requires
        0 <= n <= links.len(),
    ensures
        g.with_doc_links(source, links.take(n)).within(g.with_doc_links(source, links)),
    decreases links.len() - n,
{
    if n == links.len() {
        assert(links.take(n) =~= links);
    } else {
        lemma_doc_links_prefix(g, source, links, n + 1);
        assert(links.take(n + 1).drop_last() =~= links.take(n));
    }
}

proof fn lemma_all_links_prefix(g: RagModel, docs: Seq<DocumentModel>, n: int)
    requires
        0 <= n <= docs.len(),
    ensures
        g.with_all_links(docs.take(n)).within(g.with_all_links(docs)),
    decreases docs.len() - n,
{
    if n == docs.len() {
        assert(docs.take(n) =~= docs);
    } else {
        lemma_all_links_prefix(g, docs, n + 1);
        assert(docs.take(n + 1).drop_last() =~= docs.take(n));
        let before = g.with_all_links(docs.take(n));
        let low = lowercase(docs[n].title);
        if before.by_title.contains_key(low) {
            lemma_doc_links_prefix(before, before.by_title[low], docs[n].links, 0);
            assert(docs[n].links.take(0) =~= Seq::empty());
        }
    }
}

proof fn lemma_stored_links_prefix(
    g: RagModel,
    ids: Map<Seq<char>, usize>,
    links: Seq<LinkRowModel>,
    n: int,
)
    requires
        0 <= n <= links.len(),
    ensures
        g.with_stored_links(ids, links.take(n)).within(g.with_stored_links(ids, links)),
    decreases links.len() - n,
{
    if n == links.len() {
        assert(links.take(n) =~= links);
    } else {
        lemma_stored_links_prefix(g, ids, links, n + 1);
        assert(links.take(n + 1).drop_last() =~= links.take(n));
    }
}

proof fn lemma_snippets_size(
    g: RagModel,
    ids: Map<Seq<char>, usize>,
    rows: Seq<(Seq<char>, Seq<char>)>,
)
    requires
        in_range(ids, g.nodes.len()),
    ensures
        g.with_snippets(ids, rows).nodes.len() == g.nodes.len(),
        g.with_snippets(ids, rows).ends == g.ends,
    decreases rows.len(),
{
    if rows.len() > 0 {
        lemma_snippets_size(g, ids, rows.drop_last());
    }
}

proof fn lemma_tags_size(
    g: RagModel,
    ids: Map<Seq<char>, usize>,
    rows: Seq<(Seq<char>, Seq<char>)>,
)
    requires
        in_range(ids, g.nodes.len()),
    ensures
        stored_tags(g, ids, rows).0.nodes.len() == g.nodes.len(),
        stored_tags(g, ids, rows).0.ends == g.ends,
    decreases rows.len(),
{
    if rows.len() > 0 {
        lemma_tags_size(g, ids, rows.drop_last());
    }
}

proof fn lemma_noted_size(docs: Seq<DocumentModel>)
    ensures
        noted(docs).0.nodes.len() == docs.len(),
        noted(docs).0.ends.len() == 0,
    decreases docs.len(),
{
    if docs.len() > 0 {
        lemma_noted_size(docs.drop_last());
    }
}

proof fn lemma_stored_size(rows: Seq<DocRowModel>)
    ensures
        stored_notes(rows).0.nodes.len() == rows.len(),
        stored_notes(rows).0.ends.len() == 0,
    decreases rows.len(),
{
    if rows.len() > 0 {
        lemma_stored_size(rows.drop_last());
    }
}

impl GraphRagEngine {
    /// The wiring holds the edges, every edge connects two nodes, and every name
    /// leads to a node.
    pub open spec fn wf(&self) -> bool {
        &&& self.wiring.wf()
        &&& self.wiring@.nodes == self.nodes@.len()
        &&& self.weights@ == self@.weights()
        &&& self@.wf()
    }

    /// A graph without nodes.
    pub fn new() -> (r: Self)
        ensures
            r.wf(),
            r@ == empty_rag(),
    {
        broadcast use group_views;

        let r = GraphRagEngine {
            wiring: Wiring::new(),
            nodes: Vec::new(),
            edges: Vec::new(),
            weights: Vec::new(),
            by_title: StringHashMap::new(),
            by_alias: StringHashMap::new(),
        };
        assert(r.weights@ =~= r@.weights());
        r
    }

    fn push_node(&mut self, node: RagNode, aliases: &Vec<String>)
        requires
            old(self).wf(),
            old(self)@.nodes.len() < GRAPH_LIMIT,
        ensures
            final(self).wf(),
            final(self)@ == old(self)@.with_node(node@, views(aliases@)),
    {
        broadcast use group_views;

        let ghost g = self@;
        let ghost names = views(aliases@);
        let n: usize = self.nodes.len();
        proof {
            lemma_aliases(g, names, n);
        }
        self.wiring.push_node();
        self.by_title.insert(to_lowercase(node.title.as_str()), n);
        self.nodes.push(node);
        let mut i: usize = 0;
        assert(names.take(0) =~= Seq::empty());
        let ghost before = *self;
        while i < aliases.len()
            invariant
                i <= aliases@.len(),
                names == views(aliases@),
                self.wiring == before.wiring,
                self.nodes == before.nodes,
                self.edges == before.edges,
                self.weights == before.weights,
                self.by_title == before.by_title,
                self.by_alias@ == g.with_aliases(names.take(i as int), n).by_alias,
            decreases aliases.len() - i,
        {
            assert(names.take(i as int + 1).drop_last() =~= names.take(i as int));
            self.by_alias.insert(to_lowercase(aliases[i].as_str()), n);
            i += 1;
        }
        assert(names.take(i as int) =~= names);
        assert(self@ == g.with_node(node@, names));
    }

    fn push_edge(&mut self, a: usize, b: usize, relation: &str, weight: u32)
        requires
            old(self).wf(),
            a < old(self)@.nodes.len(),
            b < old(self)@.nodes.len(),
            old(self)@.ends.len() < GRAPH_LIMIT,
            1 <= weight <= MAX_WEIGHT,
        ensures
            final(self).wf(),
            final(self)@ == old(self)@.with_edge(
                a,
                b,
                (RagEdgeModel { relation: relation@, weight }),
            ),
    {
        broadcast use group_views;

        self.wiring.push_edge(a, b);
        self.edges.push(RagEdge { relation: relation.to_owned(), weight });
        self.weights.push(weight);
        assert(self.weights@ =~= self@.weights());
    }

    /// The node with this title or alias.
    pub fn find(&self, name: &str) -> (r: Option<usize>)
        ensures
            r == self@.named(name@),
    {
        let low = to_lowercase(name);
        match self.by_title.get(low.as_str()) {
            Some(i) => Some(*i),
            None => match self.by_alias.get(low.as_str()) {
                Some(i) => Some(*i),
                None => None,
            },
        }
    }

    fn resolve_or_create_dangling(&mut self, name: &str) -> (r: usize)
        requires
            old(self).wf(),
            old(self)@.with_target(name@).nodes.len() <= GRAPH_LIMIT,
        ensures
            final(self).wf(),
            final(self)@ == old(self)@.with_target(name@),
            r == old(self)@.target_node(name@),
            r < final(self)@.nodes.len(),
    {
        broadcast use group_views;

        if let Some(i) = self.find(name) {
            return i;
        }
        let n: usize = self.nodes.len();
        self.wiring.push_node();
        let tags: Vec<String> = Vec::new();
        self.nodes.push(
            RagNode {
                title: name.to_owned(),
                path: None,
                node_type: NodeType::Dangling,
                tags,
                word_count: 0,
                pagerank: Rank::none(),
                snippet: None,
            },
        );
        self.by_title.insert(to_lowercase(name), n);
        n
    }

    fn push_link(&mut self, source: usize, name: &str, t: LinkType)
        requires
            old(self).wf(),
            source < old(self)@.nodes.len(),
            old(self)@.with_link(source, name@, t).fits(),
        ensures
            final(self).wf(),
            final(self)@ == old(self)@.with_link(source, name@, t),
    {
        let target: usize = self.resolve_or_create_dangling(name);
        let (relation, weight): (&str, u32) = match t {
            LinkType::Wikilink => ("wikilink", 10),
            LinkType::Embed => ("embed", 9),
            LinkType::Markdown => ("markdown", 12),
        };
        self.push_edge(source, target, relation, weight);
        self.push_edge(target, source, "backlink", weight + 3);
    }

    fn push_group(&mut self, g: &TagGroup)
        requires
            old(self).wf(),
            old(self)@.with_group(g@).fits(),
            forall|i: int| 0 <= i < g.nodes@.len() ==> #[trigger] g.nodes@[i] < old(self)@.nodes.len(),
        ensures
            final(self).wf(),
            final(self)@ == old(self)@.with_group(g@),
            final(self)@.nodes.len() == old(self)@.nodes.len(),
    {
        let n: usize = g.nodes.len();
        if n <= 1 || n > 50 {
            return;
        }
        let mut relation = "tag:#".to_owned();
        relation.append(g.tag.as_str());
        let ghost first = self@;
        let ghost ns = g.nodes@;
        let mut i: usize = 0;
        while i < n
            invariant
                i <= n,
                n == ns.len(),
                ns == g.nodes@,
                self.wf(),
                first.with_rows(ns, n as int, relation@).fits(),
                self@.nodes.len() == first.nodes.len(),
                forall|i: int| 0 <= i < ns.len() ==> #[trigger] ns[i] < first.nodes.len(),
                self@ == first.with_rows(ns, i as int, relation@),
            decreases n - i,
        {
            proof {
                lemma_rows_prefix(first, ns, i + 1, n as int, relation@);
            }
            let ghost row = self@;
            let mut j: usize = i + 1;
            while j < n
                invariant
                    i < j <= n,
                    n == ns.len(),
                    ns == g.nodes@,
                    self.wf(),
                    row.with_row(ns, i as int, n as int, relation@).fits(),
                    self@.nodes.len() == first.nodes.len(),
                    forall|i: int| 0 <= i < ns.len() ==> #[trigger] ns[i] < first.nodes.len(),
                    self@ == row.with_row(ns, i as int, j as int, relation@),
                decreases n - j,
            {
                proof {
                    lemma_row_prefix(row, ns, i as int, j + 1, n as int, relation@);
                }
                let u: usize = g.nodes[i];
                let v: usize = g.nodes[j];
                assert(ns[i as int] == u && ns[j as int] == v);
                if u != v {
                    self.push_edge(u, v, relation.as_str(), 15);
                    self.push_edge(v, u, relation.as_str(), 15);
                }
                j += 1;
            }
            i += 1;
        }
    }

    fn push_groups(&mut self, gs: &Vec<TagGroup>)
        requires
            old(self).wf(),
            old(self)@.with_groups(views(gs@)).fits(),
            groups_in_range(views(gs@), old(self)@.nodes.len()),
        ensures
            final(self).wf(),
            final(self)@ == old(self)@.with_groups(views(gs@)),
    {
        let ghost first = self@;
        let ghost all = views(gs@);
        let mut i: usize = 0;
        assert(all.take(0) =~= Seq::empty());
        while i < gs.len()
            invariant
                i <= gs@.len(),
                all == views(gs@),
                self.wf(),
                first.with_groups(all).fits(),
                groups_in_range(all, first.nodes.len()),
                self@.nodes.len() == first.nodes.len(),
                self@ == first.with_groups(all.take(i as int)),
            decreases gs.len() - i,
        {
            assert(all.take(i as int + 1).drop_last() =~= all.take(i as int));
            assert(all[i as int] == gs@[i as int]@);
            proof {
                lemma_groups_prefix(first, all, i as int + 1);
                assert forall|k: int| 0 <= k < gs@[i as int].nodes@.len() implies
                    #[trigger] gs@[i as int].nodes@[k] < first.nodes.len() by {
                    assert(all[i as int].1[k] < first.nodes.len());
                }
            }
            self.push_group(&gs[i]);
            i += 1;
        }
        assert(all.take(i as int) =~= all);
    }

    /// The graph of these notes. Its nodes are not ranked yet.
    pub fn from_documents(docs: &Vec<ParsedDocument>) -> (r: Self)
        requires
            rag_of(views(docs@)).fits(),
        ensures
            r.wf(),
            r@ == rag_of(views(docs@)),
    {
        broadcast use group_views;

        let ghost all = views(docs@);
        let mut g = GraphRagEngine::new();
        let mut groups: Vec<TagGroup> = Vec::new();
        proof {
            lemma_noted_size(all);
            lemma_all_links_prefix(noted(all).0, all, 0);
            assert(all.take(0) =~= Seq::empty());
            lemma_groups_prefix(noted(all).0.with_all_links(all), noted(all).1, 0);
            assert(noted(all).1.take(0) =~= Seq::empty());
        }
        let mut i: usize = 0;
        while i < docs.len()
            invariant
                i <= docs@.len(),
                all == views(docs@),
                docs@.len() <= GRAPH_LIMIT,
                g.wf(),
                (g@, views(groups@)) == noted(all.take(i as int)),
                groups_in_range(views(groups@), g@.nodes.len()),
            decreases docs.len() - i,
        {
            assert(all.take(i as int + 1).drop_last() =~= all.take(i as int));
            let doc = &docs[i];
            assert(all[i as int] == doc@);
            proof {
                lemma_noted_size(all.take(i as int));
            }
            let tags = tag_name_list(&doc.tags);
            let ghost names = views(tags@);
            let snippet = if doc.chunks.len() > 0 {
                assert(views(doc.chunks@)[0] == doc.chunks@[0]@);
                Some(doc.chunks[0].content.clone())
            } else if doc.sections.len() > 0 {
                assert(views(doc.sections@)[0] == doc.sections@[0]@);
                Some(doc.sections[0].content.clone())
            } else {
                None
            };
            let n: usize = g.nodes.len();
            let ghost gs = views(groups@);
            g.push_node(
                RagNode {
                    title: doc.title.clone(),
                    path: Some(doc.path.clone()),
                    node_type: NodeType::Document,
                    tags: clone_strings(&tags),
                    word_count: doc.word_count,
                    pagerank: Rank::none(),
                    snippet,
                },
                &doc.frontmatter.aliases,
            );
            assert(groups_in_range(views(groups@), g@.nodes.len()));
            let mut k: usize = 0;
            assert(names.take(0) =~= Seq::empty());
            while k < tags.len()
                invariant
                    k <= tags@.len(),
                    names == views(tags@),
                    n < g@.nodes.len(),
                    groups_in_range(views(groups@), g@.nodes.len()),
                    views(groups@) == with_tags(gs, names.take(k as int), n),
                decreases tags.len() - k,
            {
                assert(names.take(k as int + 1).drop_last() =~= names.take(k as int));
                proof {
                    lemma_with_tagged(views(groups@), names[k as int], n, g@.nodes.len());
                }
                push_tagged(&mut groups, tags[k].as_str(), n);
                k += 1;
            }
            assert(names.take(k as int) =~= names);
            i += 1;
        }
        assert(all.take(i as int) =~= all);
        g.push_document_links(docs, Ghost(noted(all).1));
        g.push_groups(&groups);
        g
    }

    fn push_document_links(
        &mut self,
        docs: &Vec<ParsedDocument>,
        Ghost(gs): Ghost<Seq<(Seq<char>, Seq<usize>)>>,
    )
        requires
            old(self).wf(),
            old(self)@.with_all_links(views(docs@)).with_groups(gs).fits(),
        ensures
            final(self).wf(),
            final(self)@ == old(self)@.with_all_links(views(docs@)),
            final(self)@.nodes.len() >= old(self)@.nodes.len(),
    {
        let ghost all = views(docs@);
        let ghost base = self@;
        proof {
            lemma_groups_prefix(base.with_all_links(all), gs, 0);
            assert(gs.take(0) =~= Seq::empty());
        }
        let mut j: usize = 0;
        assert(all.take(0) =~= Seq::empty());
        while j < docs.len()
            invariant
                j <= docs@.len(),
                all == views(docs@),
                base.with_all_links(all).fits(),
                self.wf(),
                self@.nodes.len() >= base.nodes.len(),
                self@ == base.with_all_links(all.take(j as int)),
            decreases docs.len() - j,
        {
            assert(all.take(j as int + 1).drop_last() =~= all.take(j as int));
            let doc = &docs[j];
            assert(all[j as int] == doc@);
            let ghost before = self@;
            proof {
                lemma_all_links_prefix(base, all, j as int + 1);
            }
            let low = to_lowercase(doc.title.as_str());
            let source: Option<usize> = match self.by_title.get(low.as_str()) {
                Some(s) => Some(*s),
                None => None,
            };
            if let Some(s) = source {
                let ghost links = views(doc.links@);
                let mut k: usize = 0;
                assert(links.take(0) =~= Seq::empty());
                while k < doc.links.len()
                    invariant
                        k <= doc.links@.len(),
                        links == views(doc.links@),
                        s < before.nodes.len(),
                        before.nodes.len() <= self@.nodes.len(),
                        before.with_doc_links(s, links).fits(),
                        self.wf(),
                        self@ == before.with_doc_links(s, links.take(k as int)),
                    decreases doc.links.len() - k,
                {
                    assert(links.take(k as int + 1).drop_last() =~= links.take(k as int));
                    assert(links[k as int] == doc.links@[k as int]@);
                    proof {
                        lemma_doc_links_prefix(before, s, links, k as int + 1);
                    }
                    let name = str_trim(doc.links[k].target_note.as_str());
                    if !name.as_str().is_empty() {
                        self.push_link(s, name.as_str(), doc.links[k].link_type);
                    }
                    k += 1;
                }
                assert(links.take(k as int) =~= links);
            }
            j += 1;
        }
        assert(all.take(j as int) =~= all);
    }
}

impl GraphRagEngine {
    fn push_rows(&mut self, rows: &Vec<DocRow>) -> (ids: StringHashMap<usize>)
        requires
            old(self).wf(),
            old(self)@ == empty_rag(),
            rows@.len() <= GRAPH_LIMIT,
        ensures
            final(self).wf(),
            (final(self)@, ids@) == stored_notes(views(rows@)),
            in_range(ids@, final(self)@.nodes.len()),
    {
        broadcast use group_views;

        let ghost all = views(rows@);
        let mut ids: StringHashMap<usize> = StringHashMap::new();
        let mut i: usize = 0;
        assert(all.take(0) =~= Seq::empty());
        while i < rows.len()
            invariant
                i <= rows@.len(),
                all == views(rows@),
                rows@.len() <= GRAPH_LIMIT,
                self.wf(),
                (self@, ids@) == stored_notes(all.take(i as int)),
                in_range(ids@, self@.nodes.len()),
            decreases rows.len() - i,
        {
            assert(all.take(i as int + 1).drop_last() =~= all.take(i as int));
            let row = &rows[i];
            assert(all[i as int] == row@);
            proof {
                lemma_stored_size(all.take(i as int));
            }
            let n: usize = self.nodes.len();
            let tags: Vec<String> = Vec::new();
            let node = RagNode {
                title: row.title.clone(),
                path: Some(row.path.clone()),
                node_type: NodeType::Document,
                tags,
                word_count: row.word_count,
                pagerank: Rank::none(),
                snippet: None,
            };
            assert(node@.tags == row_node(row@).tags);
            assert(node@ == row_node(row@));
            self.push_node(node, &row.aliases);
            ids.insert(row.doc_id.clone(), n);
            i += 1;
        }
        assert(all.take(i as int) =~= all);
        ids
    }

    fn push_tag_rows(&mut self, ids: &StringHashMap<usize>, rows: &Vec<TagRow>) -> (gs: Vec<TagGroup>)
        requires
            old(self).wf(),
            in_range(ids@, old(self)@.nodes.len()),
        ensures
            final(self).wf(),
            (final(self)@, views(gs@)) == stored_tags(old(self)@, ids@, views(rows@)),
            groups_in_range(views(gs@), final(self)@.nodes.len()),
            final(self)@.nodes.len() == old(self)@.nodes.len(),
    {
        broadcast use group_views;

        let ghost all = views(rows@);
        let ghost first = self@;
        let mut groups: Vec<TagGroup> = Vec::new();
        let mut i: usize = 0;
        assert(all.take(0) =~= Seq::empty());
        while i < rows.len()
            invariant
                i <= rows@.len(),
                all == views(rows@),
                self.wf(),
                self@.nodes.len() == first.nodes.len(),
                in_range(ids@, first.nodes.len()),
                (self@, views(groups@)) == stored_tags(first, ids@, all.take(i as int)),
                groups_in_range(views(groups@), first.nodes.len()),
            decreases rows.len() - i,
        {
            assert(all.take(i as int + 1).drop_last() =~= all.take(i as int));
            let row = &rows[i];
            assert(all[i as int] == row@);
            if let Some(p) = ids.get(row.doc_id.as_str()) {
                let n: usize = *p;
                let ghost nodes0 = views(self.nodes@);
                assert(nodes0[n as int] == self.nodes@[n as int]@);
                let mut node = self.nodes.remove(n);
                node.tags.push(row.tag.clone());
                self.nodes.insert(n, node);
                assert(node@.tags == nodes0[n as int].tags.push(row.tag@));
                assert(node@ == (RagNodeModel {
                    tags: nodes0[n as int].tags.push(row.tag@),
                    ..nodes0[n as int]
                }));
                assert(views(self.nodes@) =~= nodes0.update(n as int, node@));
                proof {
                    lemma_with_tagged(views(groups@), row.tag@, n, first.nodes.len());
                }
                push_tagged(&mut groups, row.tag.as_str(), n);
            }
            i += 1;
        }
        assert(all.take(i as int) =~= all);
        groups
    }

    fn push_link_rows(
        &mut self,
        ids: &StringHashMap<usize>,
        rows: &Vec<LinkRow>,
    )
        requires
            old(self).wf(),
            in_range(ids@, old(self)@.nodes.len()),
            old(self)@.with_stored_links(ids@, views(rows@)).fits(),
        ensures
            final(self).wf(),
            final(self)@ == old(self)@.with_stored_links(ids@, views(rows@)),
            final(self)@.nodes.len() >= old(self)@.nodes.len(),
    {
        let ghost all = views(rows@);
        let ghost base = self@;
        let mut i: usize = 0;
        assert(all.take(0) =~= Seq::empty());
        while i < rows.len()
            invariant
                i <= rows@.len(),
                all == views(rows@),
                self.wf(),
                in_range(ids@, base.nodes.len()),
                self@.nodes.len() >= base.nodes.len(),
                base.with_stored_links(ids@, all).fits(),
                self@ == base.with_stored_links(ids@, all.take(i as int)),
            decreases rows.len() - i,
        {
            assert(all.take(i as int + 1).drop_last() =~= all.take(i as int));
            let row = &rows[i];
            assert(all[i as int] == row@);
            proof {
                lemma_stored_links_prefix(base, ids@, all, i as int + 1);
            }
            if let Some(p) = ids.get(row.source_doc_id.as_str()) {
                let t = if same(row.link_type.as_str(), "embed") {
                    LinkType::Embed
                } else if same(row.link_type.as_str(), "markdown") {
                    LinkType::Markdown
                } else {
                    LinkType::Wikilink
                };
                self.push_link(*p, row.target_note.as_str(), t);
            }
            i += 1;
        }
        assert(all.take(i as int) =~= all);
    }

    fn push_snippet_rows(&mut self, ids: &StringHashMap<usize>, rows: &Vec<SnippetRow>)
        requires
            old(self).wf(),
            in_range(ids@, old(self)@.nodes.len()),
        ensures
            final(self).wf(),
            final(self)@ == old(self)@.with_snippets(ids@, views(rows@)),
            final(self)@.nodes.len() == old(self)@.nodes.len(),
    {
        let ghost all = views(rows@);
        let ghost base = self@;
        let mut i: usize = 0;
        assert(all.take(0) =~= Seq::empty());
        while i < rows.len()
            invariant
                i <= rows@.len(),
                all == views(rows@),
                self.wf(),
                in_range(ids@, base.nodes.len()),
                self@.nodes.len() == base.nodes.len(),
                self@ == base.with_snippets(ids@, all.take(i as int)),
            decreases rows.len() - i,
        {
            assert(all.take(i as int + 1).drop_last() =~= all.take(i as int));
            let row = &rows[i];
            assert(all[i as int] == row@);
            if let Some(p) = ids.get(row.doc_id.as_str()) {
                let n: usize = *p;
                let ghost nodes0 = views(self.nodes@);
                assert(nodes0[n as int] == self.nodes@[n as int]@);
                let mut node = self.nodes.remove(n);
                node.snippet = Some(row.content.clone());
                self.nodes.insert(n, node);
                assert(views(self.nodes@) =~= nodes0.update(n as int, node@));
            }
            i += 1;
        }
        assert(all.take(i as int) =~= all);
    }

    /// The graph of what is stored. Its nodes are not ranked yet.
    pub fn from_rows(
        docs: &Vec<DocRow>,
        tags: &Vec<TagRow>,
        links: &Vec<LinkRow>,
        snippets: &Vec<SnippetRow>,
    ) -> (r: Self)
        requires
            rag_of_rows(views(docs@), views(tags@), views(links@), views(snippets@)).fits(),
        ensures
            r.wf(),
            r@ == rag_of_rows(views(docs@), views(tags@), views(links@), views(snippets@)),
    {
        let count: usize = docs.len();
        let mut g = GraphRagEngine::new();
        let ghost (g1, ids1) = stored_notes(views(docs@));
        let ghost (g2, gs) = stored_tags(g1, ids1, views(tags@));
        let ghost g3 = g2.with_stored_links(ids1, views(links@));
        let ghost g4 = g3.with_snippets(ids1, views(snippets@));
        proof {
            lemma_stored_size(views(docs@));
            lemma_stored_in_range(views(docs@));
            lemma_tags_size(g1, ids1, views(tags@));
            lemma_stored_links_prefix(g2, ids1, views(links@), 0);
            assert(views(links@).take(0) =~= Seq::empty());
            lemma_snippets_size(g3, ids1, views(snippets@));
            lemma_groups_prefix(g4, gs, 0);
            assert(gs.take(0) =~= Seq::empty());
        }
        let ids = g.push_rows(docs);
        let groups = g.push_tag_rows(&ids, tags);
        g.push_link_rows(&ids, links);
        g.push_snippet_rows(&ids, snippets);
        g.push_groups(&groups);
        g
    }
}

proof fn lemma_stored_in_range(rows: Seq<DocRowModel>)
    requires
        rows.len() <= usize::MAX,
    ensures
        in_range(stored_notes(rows).1, stored_notes(rows).0.nodes.len()),
    decreases rows.len(),
{
    if rows.len() > 0 {
        lemma_stored_in_range(rows.drop_last());
        lemma_stored_size(rows.drop_last());
    }
}

// ---------------------------------------------------------------------------
// Ranking
// ---------------------------------------------------------------------------

/// The nodes with these ranks.
pub open spec fn rag_ranked(nodes: Seq<RagNodeModel>, ranks: Seq<RankModel>) -> Seq<RagNodeModel> {
    Seq::new(nodes.len(), |i: int| RagNodeModel { pagerank: ranks[i], ..nodes[i] })
}

impl GraphRagEngine {
    /// How many nodes there are.
    pub fn node_count(&self) -> (r: usize)
        ensures
            r == self@.nodes.len(),
    {
        self.nodes.len()
    }

    /// How many edges leave a node.
    pub fn out_degree(&self, n: usize) -> (r: usize)
        requires
            self.wf(),
            n < self@.nodes.len(),
        ensures
            r == outs(self@.ends, n as int).len(),
    {
        self.wiring.edges_out(n).len()
    }

    /// The nodes from which the edges into a node come, the latest first.
    pub fn sources_of(&self, n: usize) -> (r: Vec<usize>)
        requires
            self.wf(),
            n < self@.nodes.len(),
        ensures
            r@ == ins(self@.ends, n as int).map_values(|e: (usize, usize)| e.1),
    {
        self.wiring.sources_of(n)
    }

    /// Gives the nodes these ranks.
    pub fn assign_ranks(&mut self, ranks: &Vec<Rank>)
        requires
            old(self).wf(),
            ranks@.len() == old(self)@.nodes.len(),
        ensures
            final(self).wf(),
            final(self)@ == (RagModel {
                nodes: rag_ranked(old(self)@.nodes, views(ranks@)),
                ..old(self)@
            }),
    {
        let ghost nodes0 = views(self.nodes@);
        let ghost want = rag_ranked(nodes0, views(ranks@));
        let n: usize = self.nodes.len();
        let mut i: usize = 0;
        while i < n
            invariant
                i <= n,
                n == self.nodes@.len(),
                n == ranks@.len(),
                n == nodes0.len(),
                want == rag_ranked(nodes0, views(ranks@)),
                self.wiring == old(self).wiring,
                self.edges == old(self).edges,
                self.weights == old(self).weights,
                self.by_title == old(self).by_title,
                self.by_alias == old(self).by_alias,
                forall|k: int| 0 <= k < i ==> views(self.nodes@)[k] == #[trigger] want[k],
                forall|k: int| i <= k < n ==> views(self.nodes@)[k] == #[trigger] nodes0[k],
            decreases n - i,
        {
            let rank = ranks[i].clone();
            assert(views(self.nodes@)[i as int] == nodes0[i as int]);
            let ghost before = self.nodes@;
            let mut node = self.nodes.remove(i);
            node.pagerank = rank;
            self.nodes.insert(i, node);
            assert(views(self.nodes@) =~= views(before).update(i as int, node@));
            assert(views(ranks@)[i as int] == ranks@[i as int]@);
            assert(node@ == want[i as int]);
            i += 1;
            assert forall|k: int| 0 <= k < i implies views(self.nodes@)[k] == #[trigger] want[k] by {
                if k < i - 1 {
                    assert(views(before)[k] == want[k]);
                }
            }
            assert forall|k: int| i <= k < n implies views(self.nodes@)[k] == #[trigger] nodes0[k] by {
                assert(views(before)[k] == nodes0[k]);
            }
        }
        assert(views(self.nodes@) =~= want);
    }
}

// ---------------------------------------------------------------------------
// What holds of every graph
// ---------------------------------------------------------------------------

/// A link ties two notes both ways: an edge leads from the note to what the target names
/// and one leads back. Their relations and weights go by the kind of the link, and the
/// way back weighs a little more. Nothing else is tied, and nothing is lost.
pub proof fn link_ties_both_ways(g: RagModel, source: usize, name: Seq<char>, t: LinkType)
    requires
        g.edges.len() == g.ends.len(),
        g.nodes.len() < usize::MAX,
        in_range(g.by_title, g.nodes.len()),
        in_range(g.by_alias, g.nodes.len()),
    ensures
        ({
            let h = g.with_link(source, name, t);
            let n = g.ends.len() as int;
            let to = h.ends[n].1;
            &&& h.ends.len() == n + 2
            &&& h.edges.len() == n + 2
            &&& h.ends.take(n) == g.ends
            &&& h.edges.take(n) == g.edges
            &&& h.ends[n] == (source, to)
            &&& h.ends[n + 1] == (to, source)
            &&& h.edges[n + 1].relation == "backlink"@
            &&& h.edges[n + 1].weight == h.edges[n].weight + 3
            &&& t == LinkType::Wikilink ==> h.edges[n].relation == "wikilink"@ && h.edges[n].weight
                == 10
            &&& t == LinkType::Embed ==> h.edges[n].relation == "embed"@ && h.edges[n].weight == 9
            &&& t == LinkType::Markdown ==> h.edges[n].relation == "markdown"@ && h.edges[n].weight
                == 12
            &&& g.named(name) is Some ==> h.nodes == g.nodes && Some(to) == g.named(name)
            &&& g.named(name) is None ==> to == g.nodes.len() && h.nodes.len() == g.nodes.len() + 1
                && h.nodes.take(g.nodes.len() as int) == g.nodes && h.nodes[to as int].title == name
                && h.nodes[to as int].node_type == NodeType::Dangling && h.named(name) == Some(to)
        }),
{
    let h = g.with_link(source, name, t);
    let n = g.ends.len() as int;
    assert(h.ends.take(n) =~= g.ends);
    assert(h.edges.take(n) =~= g.edges);
    assert(h.nodes.take(g.nodes.len() as int) =~= g.nodes);
}

/// Whether the edges come in pairs, one for each way: the second leads back along the
/// first. It weighs a little more, unless the two are the same but for their direction.
pub open spec fn is_paired(g: RagModel) -> bool {
    &&& g.edges.len() == g.ends.len()
    &&& g.ends.len() % 2 == 0
    &&& forall|k: int| 0 <= k && 2 * k + 1 < g.ends.len() ==> #[trigger] pair_matches(g, k)
}

/// Whether the `k`th pair of edges is one.
pub open spec fn pair_matches(g: RagModel, k: int) -> bool {
    &&& g.ends[2 * k + 1] == (g.ends[2 * k].1, g.ends[2 * k].0)
    &&& (g.edges[2 * k + 1].relation == "backlink"@ && g.edges[2 * k + 1].weight == g.edges[2
        * k].weight + 3) || (g.edges[2 * k + 1] == g.edges[2 * k] && g.edges[2 * k].weight == 15
        && g.ends[2 * k].0 != g.ends[2 * k].1)
}

proof fn lemma_pairs_grow(g: RagModel, h: RagModel)
    requires
        is_paired(g),
        h.edges.len() == h.ends.len(),
        h.ends.len() == g.ends.len() + 2,
        h.ends.take(g.ends.len() as int) == g.ends,
        h.edges.take(g.edges.len() as int) == g.edges,
        pair_matches(h, g.ends.len() as int / 2),
    ensures
        is_paired(h),
{
    assert forall|k: int| 0 <= k && 2 * k + 1 < h.ends.len() implies #[trigger] pair_matches(h, k) by {
        if 2 * k + 1 < g.ends.len() {
            assert(pair_matches(g, k));
            assert(h.ends.take(g.ends.len() as int)[2 * k] == h.ends[2 * k]);
            assert(h.ends.take(g.ends.len() as int)[2 * k + 1] == h.ends[2 * k + 1]);
            assert(h.edges.take(g.edges.len() as int)[2 * k] == h.edges[2 * k]);
            assert(h.edges.take(g.edges.len() as int)[2 * k + 1] == h.edges[2 * k + 1]);
        } else {
            assert(k == g.ends.len() as int / 2);
        }
    }
}

proof fn lemma_link_paired(g: RagModel, source: usize, name: Seq<char>, t: LinkType)
    requires
        is_paired(g),
    ensures
        is_paired(g.with_link(source, name, t)),
{
    let h = g.with_link(source, name, t);
    let n = g.ends.len() as int;
    assert(h.ends.take(n) =~= g.ends);
    assert(h.edges.take(n) =~= g.edges);
    assert(2 * (n / 2) == n);
    lemma_pairs_grow(g, h);
}

proof fn lemma_pair_paired(g: RagModel, u: usize, v: usize, relation: Seq<char>)
    requires
        is_paired(g),
    ensures
        is_paired(g.with_pair(u, v, relation)),
{
    if u != v {
        let h = g.with_pair(u, v, relation);
        let n = g.ends.len() as int;
        assert(h.ends.take(n) =~= g.ends);
        assert(h.edges.take(n) =~= g.edges);
        assert(2 * (n / 2) == n);
        lemma_pairs_grow(g, h);
    }
}

proof fn lemma_doc_links_paired(g: RagModel, source: usize, links: Seq<LinkModel>)
    requires
        is_paired(g),
    ensures
        is_paired(g.with_doc_links(source, links)),
    decreases links.len(),
{
    if links.len() > 0 {
        let before = g.with_doc_links(source, links.drop_last());
        lemma_doc_links_paired(g, source, links.drop_last());
        lemma_link_paired(before, source, trim(links.last().target_note), links.last().link_type);
    }
}

proof fn lemma_all_links_paired(g: RagModel, docs: Seq<DocumentModel>)
    requires
        is_paired(g),
    ensures
        is_paired(g.with_all_links(docs)),
    decreases docs.len(),
{
    if docs.len() > 0 {
        let before = g.with_all_links(docs.drop_last());
        lemma_all_links_paired(g, docs.drop_last());
        let low = lowercase(docs.last().title);
        lemma_doc_links_paired(before, before.by_title[low], docs.last().links);
    }
}

proof fn lemma_row_paired(g: RagModel, ns: Seq<usize>, i: int, j: int, relation: Seq<char>)
    requires
        is_paired(g),
    ensures
        is_paired(g.with_row(ns, i, j, relation)),
    decreases j,
{
    if j > i + 1 && j > 0 {
        lemma_row_paired(g, ns, i, j - 1, relation);
        lemma_pair_paired(g.with_row(ns, i, j - 1, relation), ns[i], ns[j - 1], relation);
    }
}

proof fn lemma_rows_paired(g: RagModel, ns: Seq<usize>, n: int, relation: Seq<char>)
    requires
        is_paired(g),
    ensures
        is_paired(g.with_rows(ns, n, relation)),
    decreases n,
{
    if n > 0 {
        lemma_rows_paired(g, ns, n - 1, relation);
        lemma_row_paired(
            g.with_rows(ns, n - 1, relation),
            ns,
            n - 1,
            ns.len() as int,
            relation,
        );
    }
}

proof fn lemma_groups_paired(g: RagModel, gs: Seq<(Seq<char>, Seq<usize>)>)
    requires
        is_paired(g),
    ensures
        is_paired(g.with_groups(gs)),
    decreases gs.len(),
{
    if gs.len() > 0 {
        lemma_groups_paired(g, gs.drop_last());
        let last = gs.last();
        lemma_rows_paired(
            g.with_groups(gs.drop_last()),
            last.1,
            last.1.len() as int,
            "tag:#"@ + last.0,
        );
    }
}

proof fn lemma_noted_edges(docs: Seq<DocumentModel>)
    ensures
        noted(docs).0.ends.len() == 0,
        noted(docs).0.edges.len() == 0,
        noted(docs).0.nodes.len() == docs.len(),
    decreases docs.len(),
{
    if docs.len() > 0 {
        lemma_noted_edges(docs.drop_last());
    }
}

/// The edges of every graph of notes come in pairs, one for each way: whatever leads
/// from one note to another leads back.
pub proof fn ties_run_both_ways(docs: Seq<DocumentModel>)
    ensures
        is_paired(rag_of(docs)),
{
    lemma_noted_edges(docs);
    lemma_all_links_paired(noted(docs).0, docs);
    lemma_groups_paired(noted(docs).0.with_all_links(docs), noted(docs).1);
}

/// Whether `h` has the nodes and the edges of `g`, in their places.
pub open spec fn rag_extends(h: RagModel, g: RagModel) -> bool {
    &&& h.nodes.len() >= g.nodes.len()
    &&& h.edges.len() >= g.edges.len()
    &&& h.ends.len() >= g.ends.len()
    &&& forall|i: int| 0 <= i < g.nodes.len() ==> h.nodes[i] == #[trigger] g.nodes[i]
    &&& forall|i: int| 0 <= i < g.edges.len() ==> h.edges[i] == #[trigger] g.edges[i]
    &&& forall|i: int| 0 <= i < g.ends.len() ==> h.ends[i] == #[trigger] g.ends[i]
}

/// Whether an edge ties two nodes.
pub open spec fn ties(g: RagModel, u: int, v: int, relation: Seq<char>, weight: u32) -> bool {
    exists|e: int|
        {
            &&& 0 <= e < g.ends.len()
            &&& e < g.edges.len()
            &&& (#[trigger] g.ends[e]).0 == u
            &&& g.ends[e].1 == v
            &&& g.edges[e].relation == relation
            &&& g.edges[e].weight == weight
        }
}

proof fn lemma_still_tied(
    g: RagModel,
    h: RagModel,
    u: int,
    v: int,
    relation: Seq<char>,
    weight: u32,
)
    requires
        rag_extends(h, g),
        ties(g, u, v, relation, weight),
    ensures
        ties(h, u, v, relation, weight),
{
    let e = choose|e: int|
        {
            &&& 0 <= e < g.ends.len()
            &&& e < g.edges.len()
            &&& (#[trigger] g.ends[e]).0 == u
            &&& g.ends[e].1 == v
            &&& g.edges[e].relation == relation
            &&& g.edges[e].weight == weight
        };
    assert(h.ends[e] == g.ends[e]);
    assert(h.edges[e] == g.edges[e]);
}

proof fn lemma_pair_ties(g: RagModel, u: usize, v: usize, relation: Seq<char>)
    requires
        g.edges.len() == g.ends.len(),
    ensures
        ({
            let h = g.with_pair(u, v, relation);
            &&& h.edges.len() == h.ends.len()
            &&& rag_extends(h, g)
            &&& u != v ==> ties(h, u as int, v as int, relation, 15) && ties(
                h,
                v as int,
                u as int,
                relation,
                15,
            )
        }),
{
    let h = g.with_pair(u, v, relation);
    let n = g.ends.len() as int;
    if u != v {
        assert(h.ends[n] == (u, v));
        assert(h.ends[n + 1] == (v, u));
    }
}

proof fn lemma_row_ties(g: RagModel, ns: Seq<usize>, i: int, j: int, relation: Seq<char>)
    requires
        g.edges.len() == g.ends.len(),
        0 <= i,
        j <= ns.len(),
    ensures
        ({
            let h = g.with_row(ns, i, j, relation);
            &&& h.edges.len() == h.ends.len()
            &&& rag_extends(h, g)
            &&& forall|b: int|
                i < b < j && ns[i] != #[trigger] ns[b] ==> ties(
                    h,
                    ns[i] as int,
                    ns[b] as int,
                    relation,
                    15,
                ) && ties(h, ns[b] as int, ns[i] as int, relation, 15)
        }),
    decreases j,
{
    if j > i + 1 && j > 0 {
        lemma_row_ties(g, ns, i, j - 1, relation);
        let before = g.with_row(ns, i, j - 1, relation);
        let h = g.with_row(ns, i, j, relation);
        lemma_pair_ties(before, ns[i], ns[j - 1], relation);
        assert forall|b: int| i < b < j && ns[i] != #[trigger] ns[b] implies ties(
            h,
            ns[i] as int,
            ns[b] as int,
            relation,
            15,
        ) && ties(h, ns[b] as int, ns[i] as int, relation, 15) by {
            if b < j - 1 {
                lemma_still_tied(before, h, ns[i] as int, ns[b] as int, relation, 15);
                lemma_still_tied(before, h, ns[b] as int, ns[i] as int, relation, 15);
            }
        }
    }
}

proof fn lemma_rows_tie(g: RagModel, ns: Seq<usize>, n: int, relation: Seq<char>)
    requires
        g.edges.len() == g.ends.len(),
        n <= ns.len(),
    ensures
        ({
            let h = g.with_rows(ns, n, relation);
            &&& h.edges.len() == h.ends.len()
            &&& rag_extends(h, g)
            &&& forall|a: int, b: int|
                0 <= a < n && a < b < ns.len() && #[trigger] ns[a] != #[trigger] ns[b] ==> ties(
                    h,
                    ns[a] as int,
                    ns[b] as int,
                    relation,
                    15,
                ) && ties(h, ns[b] as int, ns[a] as int, relation, 15)
        }),
    decreases n,
{
    if n > 0 {
        lemma_rows_tie(g, ns, n - 1, relation);
        let before = g.with_rows(ns, n - 1, relation);
        let h = g.with_rows(ns, n, relation);
        lemma_row_ties(before, ns, n - 1, ns.len() as int, relation);
        assert forall|a: int, b: int|
            0 <= a < n && a < b < ns.len() && #[trigger] ns[a] != #[trigger] ns[b] implies ties(
            h,
            ns[a] as int,
            ns[b] as int,
            relation,
            15,
        ) && ties(h, ns[b] as int, ns[a] as int, relation, 15) by {
            if a < n - 1 {
                lemma_still_tied(before, h, ns[a] as int, ns[b] as int, relation, 15);
                lemma_still_tied(before, h, ns[b] as int, ns[a] as int, relation, 15);
            }
        }
    }
}

/// Notes that share a tag are tied to one another, both ways, under the tag's name,
/// unless more than fifty have it: then the tag ties none.
pub proof fn shared_tags_tie_notes(g: RagModel, gs: Seq<(Seq<char>, Seq<usize>)>, k: int)
    requires
        g.edges.len() == g.ends.len(),
        0 <= k < gs.len(),
    ensures
        forall|a: int, b: int|
            0 <= a < b < gs[k].1.len() && gs[k].1.len() <= 50 && #[trigger] gs[k].1[a]
                != #[trigger] gs[k].1[b] ==> ties(
                g.with_groups(gs),
                gs[k].1[a] as int,
                gs[k].1[b] as int,
                "tag:#"@ + gs[k].0,
                15,
            ) && ties(
                g.with_groups(gs),
                gs[k].1[b] as int,
                gs[k].1[a] as int,
                "tag:#"@ + gs[k].0,
                15,
            ),
        gs[k].1.len() > 50 && gs.len() == 1 ==> g.with_groups(gs).ends == g.ends,
        g.with_groups(gs).edges.len() == g.with_groups(gs).ends.len(),
        rag_extends(g.with_groups(gs), g),
    decreases gs.len(),
{
    let rest = gs.drop_last();
    let before = g.with_groups(rest);
    let h = g.with_groups(gs);
    if rest.len() > 0 {
        shared_tags_tie_notes(g, rest, if k < rest.len() {
            k
        } else {
            0
        });
    }
    let last = gs[gs.len() - 1];
    lemma_rows_tie(before, last.1, last.1.len() as int, "tag:#"@ + last.0);
    assert(rag_extends(h, before));
    if k < rest.len() {
        assert(rest[k] == gs[k]);
        assert forall|a: int, b: int|
            0 <= a < b < gs[k].1.len() && gs[k].1.len() <= 50 && #[trigger] gs[k].1[a]
                != #[trigger] gs[k].1[b] implies ties(
            h,
            gs[k].1[a] as int,
            gs[k].1[b] as int,
            "tag:#"@ + gs[k].0,
            15,
        ) && ties(h, gs[k].1[b] as int, gs[k].1[a] as int, "tag:#"@ + gs[k].0, 15) by {
            assert(rest[k].1[a] != rest[k].1[b]);
            lemma_still_tied(
                before,
                h,
                gs[k].1[a] as int,
                gs[k].1[b] as int,
                "tag:#"@ + gs[k].0,
                15,
            );
            lemma_still_tied(
                before,
                h,
                gs[k].1[b] as int,
                gs[k].1[a] as int,
                "tag:#"@ + gs[k].0,
                15,
            );
        }
    }
}

/// Whether a note is in the group of a tag.
pub open spec fn in_group(gs: Seq<(Seq<char>, Seq<usize>)>, tag: Seq<char>, n: usize) -> bool {
    exists|k: int| 0 <= k < gs.len() && (#[trigger] gs[k]).0 == tag && gs[k].1.contains(n)
}

/// Whether no two groups are of one tag.
pub open spec fn groups_differ(gs: Seq<(Seq<char>, Seq<usize>)>) -> bool {
    forall|i: int, j: int| 0 <= i < j < gs.len() ==> (#[trigger] gs[i]).0 != (#[trigger] gs[j]).0
}

proof fn lemma_tagged_grouped(gs: Seq<(Seq<char>, Seq<usize>)>, tag: Seq<char>, n: usize)
    requires
        groups_differ(gs),
    ensures
        groups_differ(with_tagged(gs, tag, n)),
        forall|t: Seq<char>, m: usize| #[trigger]
            in_group(with_tagged(gs, tag, n), t, m) <==> in_group(gs, t, m) || (t == clean_tag(tag)
                && m == n),
{
    let clean = clean_tag(tag);
    let r = with_tagged(gs, tag, n);
    lemma_group_found(gs, clean, 0);
    let i = group_index(gs, clean, 0);
    assert forall|t: Seq<char>, m: usize| #[trigger] in_group(r, t, m) <==> in_group(gs, t, m) || (t
        == clean && m == n) by {
        if in_group(gs, t, m) {
            let k = choose|k: int| 0 <= k < gs.len() && (#[trigger] gs[k]).0 == t && gs[k].1.contains(m);
            let q = choose|q: int| 0 <= q < gs[k].1.len() && gs[k].1[q] == m;
            assert(r[k].0 == t);
            assert(r[k].1[q] == m);
        }
        if t == clean && m == n {
            let last = r[i].1.len() - 1;
            assert(r[i].0 == t && r[i].1[last] == n);
        }
        if in_group(r, t, m) {
            let k = choose|k: int| 0 <= k < r.len() && (#[trigger] r[k]).0 == t && r[k].1.contains(m);
            let q = choose|q: int| 0 <= q < r[k].1.len() && r[k].1[q] == m;
            if k != i {
                assert(r[k] == gs[k]);
            } else if i < gs.len() && q < gs[i].1.len() {
                assert(gs[i].1[q] == m);
                assert(gs[i].0 == t);
            }
        }
    }
}

proof fn lemma_group_found(gs: Seq<(Seq<char>, Seq<usize>)>, tag: Seq<char>, i: int)
    requires
        0 <= i <= gs.len(),
    ensures
        i <= group_index(gs, tag, i) <= gs.len(),
        group_index(gs, tag, i) < gs.len() ==> gs[group_index(gs, tag, i)].0 == tag,
        forall|j: int| i <= j < group_index(gs, tag, i) ==> (#[trigger] gs[j]).0 != tag,
    decreases gs.len() - i,
{
    if i < gs.len() && gs[i].0 != tag {
        lemma_group_found(gs, tag, i + 1);
    }
}

/// Whether one of the tags is this one, without its hashes and in lower case.
pub open spec fn bears_tag(tags: Seq<Seq<char>>, t: Seq<char>) -> bool {
    exists|k: int| 0 <= k < tags.len() && lowercase(trim_start_char(#[trigger] tags[k], '#')) == t
}

proof fn lemma_tags_grouped(gs: Seq<(Seq<char>, Seq<usize>)>, tags: Seq<Seq<char>>, n: usize)
    requires
        groups_differ(gs),
    ensures
        groups_differ(with_tags(gs, tags, n)),
        forall|t: Seq<char>, m: usize| #[trigger]
            in_group(with_tags(gs, tags, n), t, m) <==> in_group(gs, t, m) || (m == n && bears_tag(
                tags,
                t,
            )),
    decreases tags.len(),
{
    if tags.len() > 0 {
        let rest = tags.drop_last();
        lemma_tags_grouped(gs, rest, n);
        lemma_tagged_grouped(with_tags(gs, rest, n), tags.last(), n);
        assert forall|t: Seq<char>, m: usize| #[trigger]
            in_group(with_tags(gs, tags, n), t, m) <==> in_group(gs, t, m) || (m == n && bears_tag(
            tags,
            t,
        )) by {
            if bears_tag(rest, t) {
                let k = choose|k: int|
                    0 <= k < rest.len() && lowercase(trim_start_char(#[trigger] rest[k], '#')) == t;
                assert(tags[k] == rest[k]);
            }
            if bears_tag(tags, t) && !bears_tag(rest, t) {
                let k = choose|k: int|
                    0 <= k < tags.len() && lowercase(trim_start_char(#[trigger] tags[k], '#')) == t;
                if k < rest.len() {
                    assert(rest[k] == tags[k]);
                }
            }
            assert(tags[tags.len() - 1] == tags.last());
        }
    }
}

/// Each tag has one group, and a note is in it exactly if it bears the tag, hashes and
/// case aside.
pub proof fn groups_gather_the_tagged(docs: Seq<DocumentModel>)
    requires
        docs.len() <= usize::MAX,
    ensures
        groups_differ(noted(docs).1),
        forall|t: Seq<char>, n: usize| #[trigger]
            in_group(noted(docs).1, t, n) <==> n < docs.len() && bears_tag(
                tag_names(docs[n as int].tags),
                t,
            ),
    decreases docs.len(),
{
    if docs.len() > 0 {
        let rest = docs.drop_last();
        groups_gather_the_tagged(rest);
        lemma_noted_edges(rest);
        let tags = tag_names(docs.last().tags);
        lemma_tags_grouped(noted(rest).1, tags, rest.len() as usize);
        assert forall|t: Seq<char>, n: usize| #[trigger]
            in_group(noted(docs).1, t, n) <==> n < docs.len() && bears_tag(
            tag_names(docs[n as int].tags),
            t,
        ) by {
            if n < rest.len() {
                assert(rest[n as int] == docs[n as int]);
            }
        }
    }
}

/// How many of the links name a target.
pub open spec fn naming_links(docs: Seq<DocumentModel>) -> nat
    decreases docs.len(),
{
    if docs.len() == 0 {
        0
    } else {
        naming_links(docs.drop_last()) + docs.last().links.filter(
            |l: LinkModel| trim(l.target_note).len() > 0,
        ).len()
    }
}

proof fn lemma_link_extends(g: RagModel, source: usize, name: Seq<char>, t: LinkType)
    requires
        g.edges.len() == g.ends.len(),
    ensures
        ({
            let h = g.with_link(source, name, t);
            let n = g.ends.len() as int;
            &&& rag_extends(h, g)
            &&& h.edges.len() == h.ends.len()
            &&& h.ends.len() == n + 2
            &&& h.ends[n].0 == source
            &&& h.ends[n].1 == g.target_node(name)
            &&& h.edges[n].relation == relation_of(t)
            &&& h.edges[n].weight == link_weight(t)
        }),
{
}

/// Whether an edge leads from a node under this relation, with this weight, to what is
/// called by this name, the case of the name aside.
pub open spec fn leads_to_name(
    g: RagModel,
    docs: Seq<DocumentModel>,
    source: int,
    name: Seq<char>,
    relation: Seq<char>,
    weight: u32,
) -> bool {
    exists|e: int|
        {
            &&& 0 <= e < g.ends.len()
            &&& e < g.edges.len()
            &&& (#[trigger] g.ends[e]).0 == source
            &&& g.edges[e].relation == relation
            &&& g.edges[e].weight == weight
            &&& is_called(g, docs, g.ends[e].1 as int, name)
        }
}

/// Whether a node has this title, case aside, or is a note with this alias.
pub open spec fn is_called(g: RagModel, docs: Seq<DocumentModel>, n: int, name: Seq<char>) -> bool {
    &&& 0 <= n < g.nodes.len()
    &&& lowercase(g.nodes[n].title) == lowercase(name) || (n < docs.len()
        && crate::graph::has_alias(docs[n], lowercase(name)))
}

/// Names lead to what has them.
#[verifier::opaque]
spec fn rag_names_hold(g: RagModel, docs: Seq<DocumentModel>, n: int) -> bool {
    &&& n <= g.nodes.len() <= GRAPH_LIMIT
    &&& g.edges.len() == g.ends.len()
    &&& forall|k: Seq<char>| #[trigger]
        g.by_title.contains_key(k) ==> g.by_title[k] < g.nodes.len() && lowercase(
            g.nodes[g.by_title[k] as int].title,
        ) == k
    &&& forall|k: Seq<char>| #[trigger]
        g.by_alias.contains_key(k) ==> g.by_alias[k] < n && crate::graph::has_alias(
            docs[g.by_alias[k] as int],
            k,
        )
    &&& forall|i: int| 0 <= i < n ==> g.by_title.contains_key(lowercase((#[trigger] docs[i]).title))
}

proof fn lemma_rag_aliases(g: RagModel, doc: DocumentModel, names: Seq<Seq<char>>, n: usize, m: int)
    requires
        0 <= m <= doc.frontmatter.aliases.len(),
        names == doc.frontmatter.aliases.take(m),
    ensures
        forall|k: Seq<char>| #[trigger]
            g.with_aliases(names, n).by_alias.contains_key(k) ==> (g.with_aliases(
                names,
                n,
            ).by_alias[k] == n && crate::graph::has_alias(doc, k)) || (g.by_alias.contains_key(k)
                && g.with_aliases(names, n).by_alias[k] == g.by_alias[k]),
    decreases m,
{
    if m > 0 {
        assert(names.drop_last() =~= doc.frontmatter.aliases.take(m - 1));
        lemma_rag_aliases(g, doc, names.drop_last(), n, m - 1);
        assert(doc.frontmatter.aliases[m - 1] == names.last());
        assert(crate::graph::has_alias(doc, lowercase(names.last())));
        let before = g.with_aliases(names.drop_last(), n).by_alias;
        let all = g.with_aliases(names, n).by_alias;
        assert(all == before.insert(lowercase(names.last()), n));
        assert forall|k: Seq<char>| #[trigger] all.contains_key(k) implies (all[k] == n
            && crate::graph::has_alias(doc, k)) || (g.by_alias.contains_key(k) && all[k]
            == g.by_alias[k]) by {
            if k != lowercase(names.last()) {
                assert(before.contains_key(k));
            }
        }
    }
}

proof fn lemma_noted_names(docs: Seq<DocumentModel>, n: int)
    requires
        0 <= n <= docs.len() <= GRAPH_LIMIT,
    ensures
        rag_names_hold(noted(docs.take(n)).0, docs, n),
        noted(docs.take(n)).0.nodes.len() == n,
    decreases n,
{
    reveal(rag_names_hold);
    lemma_noted_edges(docs.take(n));
    if n > 0 {
        lemma_noted_names(docs, n - 1);
        assert(docs.take(n).drop_last() =~= docs.take(n - 1));
        assert(docs.take(n).last() == docs[n - 1]);
        let g = noted(docs.take(n - 1)).0;
        let doc = docs[n - 1];
        let r = noted(docs.take(n)).0;
        let aliases = doc.frontmatter.aliases;
        assert(aliases.take(aliases.len() as int) =~= aliases);
        lemma_rag_aliases(g, doc, aliases, (n - 1) as usize, aliases.len() as int);
        assert forall|k: Seq<char>| #[trigger] r.by_title.contains_key(k) implies r.by_title[k]
            < r.nodes.len() && lowercase(r.nodes[r.by_title[k] as int].title) == k by {
            if k != lowercase(doc.title) {
                assert(g.by_title.contains_key(k));
            }
        }
        assert forall|k: Seq<char>| #[trigger] r.by_alias.contains_key(k) implies r.by_alias[k] < n
            && crate::graph::has_alias(docs[r.by_alias[k] as int], k) by {
            assert(g.with_aliases(aliases, (n - 1) as usize).by_alias.contains_key(k));
        }
        assert forall|i: int| 0 <= i < n implies r.by_title.contains_key(
            lowercase((#[trigger] docs[i]).title),
        ) by {}
    } else {
        assert(docs.take(0).len() == 0);
    }
}

proof fn lemma_link_names(
    g: RagModel,
    docs: Seq<DocumentModel>,
    source: usize,
    name: Seq<char>,
    t: LinkType,
)
    requires
        rag_names_hold(g, docs, docs.len() as int),
        g.with_link(source, name, t).nodes.len() <= GRAPH_LIMIT,
    ensures
        rag_names_hold(g.with_link(source, name, t), docs, docs.len() as int),
        rag_extends(g.with_link(source, name, t), g),
        leads_to_name(
            g.with_link(source, name, t),
            docs,
            source as int,
            name,
            relation_of(t),
            link_weight(t),
        ),
{
    reveal(rag_names_hold);
    let h = g.with_link(source, name, t);
    let n = g.ends.len() as int;
    lemma_link_extends(g, source, name, t);
    if g.named(name) is None {
        assert(h.nodes[g.nodes.len() as int].title == name);
        assert forall|k: Seq<char>| #[trigger] h.by_title.contains_key(k) implies h.by_title[k]
            < h.nodes.len() && lowercase(h.nodes[h.by_title[k] as int].title) == k by {
            if k != lowercase(name) {
                assert(g.by_title.contains_key(k));
            }
        }
    }
    assert(is_called(h, docs, h.ends[n].1 as int, name));
}

proof fn lemma_still_leads(
    g: RagModel,
    h: RagModel,
    docs: Seq<DocumentModel>,
    source: int,
    name: Seq<char>,
    relation: Seq<char>,
    weight: u32,
)
    requires
        rag_extends(h, g),
        leads_to_name(g, docs, source, name, relation, weight),
    ensures
        leads_to_name(h, docs, source, name, relation, weight),
{
    let e = choose|e: int|
        {
            &&& 0 <= e < g.ends.len()
            &&& e < g.edges.len()
            &&& (#[trigger] g.ends[e]).0 == source
            &&& g.edges[e].relation == relation
            &&& g.edges[e].weight == weight
            &&& is_called(g, docs, g.ends[e].1 as int, name)
        };
    assert(h.ends[e] == g.ends[e]);
    assert(h.edges[e] == g.edges[e]);
    assert(h.nodes[g.ends[e].1 as int] == g.nodes[g.ends[e].1 as int]);
}

proof fn lemma_doc_links_lead(
    g: RagModel,
    docs: Seq<DocumentModel>,
    source: usize,
    links: Seq<LinkModel>,
)
    requires
        rag_names_hold(g, docs, docs.len() as int),
        g.with_doc_links(source, links).nodes.len() <= GRAPH_LIMIT,
    ensures
        ({
            let h = g.with_doc_links(source, links);
            &&& rag_names_hold(h, docs, docs.len() as int)
            &&& rag_extends(h, g)
            &&& h.ends.len() == g.ends.len() + 2 * links.filter(
                |l: LinkModel| trim(l.target_note).len() > 0,
            ).len()
            &&& forall|l: int|
                0 <= l < links.len() && trim((#[trigger] links[l]).target_note).len() > 0
                    ==> leads_to_name(
                    h,
                    docs,
                    source as int,
                    trim(links[l].target_note),
                    relation_of(links[l].link_type),
                    link_weight(links[l].link_type),
                )
        }),
    decreases links.len(),
{
    let p = |l: LinkModel| trim(l.target_note).len() > 0;
    if links.len() == 0 {
        reveal(Seq::filter);
    } else {
        let rest = links.drop_last();
        let last = links.last();
        let before = g.with_doc_links(source, rest);
        let h = g.with_doc_links(source, links);
        let name = trim(last.target_note);
        assert(before.nodes.len() <= h.nodes.len());
        lemma_doc_links_lead(g, docs, source, rest);
        crate::picking::lemma_pick_push(rest, last, p);
        assert(rest.push(last) =~= links);
        if name.len() > 0 {
            lemma_link_names(before, docs, source, name, last.link_type);
            lemma_link_extends_of(before, docs, source, name, last.link_type);
        }
        assert forall|l: int|
            0 <= l < links.len() && trim((#[trigger] links[l]).target_note).len() > 0 implies leads_to_name(
            h,
            docs,
            source as int,
            trim(links[l].target_note),
            relation_of(links[l].link_type),
            link_weight(links[l].link_type),
        ) by {
            if l < rest.len() {
                assert(rest[l] == links[l]);
                lemma_still_leads(
                    before,
                    h,
                    docs,
                    source as int,
                    trim(links[l].target_note),
                    relation_of(links[l].link_type),
                    link_weight(links[l].link_type),
                );
            }
        }
    }
}

proof fn lemma_link_extends_of(
    g: RagModel,
    docs: Seq<DocumentModel>,
    source: usize,
    name: Seq<char>,
    t: LinkType,
)
    requires
        rag_names_hold(g, docs, docs.len() as int),
    ensures
        g.with_link(source, name, t).ends.len() == g.ends.len() + 2,
{
    reveal(rag_names_hold);
    lemma_link_extends(g, source, name, t);
}

proof fn lemma_all_links_lead(docs: Seq<DocumentModel>, n: int)
    requires
        0 <= n <= docs.len() <= GRAPH_LIMIT,
        noted(docs).0.with_all_links(docs.take(n)).nodes.len() <= GRAPH_LIMIT,
    ensures
        ({
            let h = noted(docs).0.with_all_links(docs.take(n));
            &&& rag_names_hold(h, docs, docs.len() as int)
            &&& h.ends.len() == 2 * naming_links(docs.take(n))
            &&& rag_extends(h, noted(docs).0)
            &&& forall|d: int, l: int|
                0 <= d < n && 0 <= l < docs[d].links.len() && trim(
                    (#[trigger] docs[d].links[l]).target_note,
                ).len() > 0 ==> is_tied_link(h, docs, d, docs[d].links[l])
        }),
    decreases n,
{
    let g = noted(docs).0;
    lemma_noted_edges(docs);
    if n == 0 {
        lemma_noted_names(docs, docs.len() as int);
        assert(docs.take(docs.len() as int) =~= docs);
        assert(docs.take(0).len() == 0);
    } else {
        let before = g.with_all_links(docs.take(n - 1));
        let h = g.with_all_links(docs.take(n));
        let doc = docs[n - 1];
        assert(docs.take(n).drop_last() =~= docs.take(n - 1));
        assert(docs.take(n).last() == doc);
        let low = lowercase(doc.title);
        lemma_doc_links_grow(before, before.by_title[low], doc.links);
        lemma_all_links_lead(docs, n - 1);
        assert(before.by_title.contains_key(low) && before.by_title[low] < before.nodes.len()
            && lowercase(before.nodes[before.by_title[low] as int].title) == low) by {
            reveal(rag_names_hold);
            assert(before.by_title.contains_key(lowercase(docs[n - 1].title)));
        }
        let source = before.by_title[low];
        lemma_doc_links_lead(before, docs, source, doc.links);
        assert forall|d: int, l: int|
            0 <= d < n && 0 <= l < docs[d].links.len() && trim(
                (#[trigger] docs[d].links[l]).target_note,
            ).len() > 0 implies is_tied_link(h, docs, d, docs[d].links[l]) by {
            let link = docs[d].links[l];
            if d < n - 1 {
                assert(is_tied_link(before, docs, d, link));
                let s = choose|s: int|
                    {
                        &&& 0 <= s < before.nodes.len()
                        &&& lowercase((#[trigger] before.nodes[s]).title) == lowercase(docs[d].title)
                        &&& leads_to_name(
                            before,
                            docs,
                            s,
                            trim(link.target_note),
                            relation_of(link.link_type),
                            link_weight(link.link_type),
                        )
                    };
                lemma_still_leads(
                    before,
                    h,
                    docs,
                    s,
                    trim(link.target_note),
                    relation_of(link.link_type),
                    link_weight(link.link_type),
                );
                assert(h.nodes[s] == before.nodes[s]);
            } else {
                assert(h.nodes[source as int] == before.nodes[source as int]);
                assert(doc.links[l] == link);
            }
        }
    }
}

proof fn lemma_doc_links_grow(g: RagModel, source: usize, links: Seq<LinkModel>)
    ensures
        g.with_doc_links(source, links).nodes.len() >= g.nodes.len(),
    decreases links.len(),
{
    if links.len() > 0 {
        lemma_doc_links_grow(g, source, links.drop_last());
    }
}

/// Whether a link of a note ties a node with the note's title to what the target names,
/// by the kind of the link.
pub open spec fn is_tied_link(g: RagModel, docs: Seq<DocumentModel>, d: int, link: LinkModel) -> bool {
    exists|s: int|
        {
            &&& 0 <= s < g.nodes.len()
            &&& lowercase((#[trigger] g.nodes[s]).title) == lowercase(docs[d].title)
            &&& leads_to_name(
                g,
                docs,
                s,
                trim(link.target_note),
                match link.link_type {
                    LinkType::Wikilink => "wikilink"@,
                    LinkType::Embed => "embed"@,
                    LinkType::Markdown => "markdown"@,
                },
                match link.link_type {
                    LinkType::Wikilink => 10,
                    LinkType::Embed => 9,
                    LinkType::Markdown => 12,
                },
            )
        }
}

/// Every link of every note that names a target ties the note to what it names, case and
/// white space around it aside, and these links and their ways back are all that ties
/// notes before tags do.
pub proof fn every_link_ties_its_note(docs: Seq<DocumentModel>, d: int, l: int)
    requires
        docs.len() <= GRAPH_LIMIT,
        noted(docs).0.with_all_links(docs).nodes.len() <= GRAPH_LIMIT,
    ensures
        noted(docs).0.with_all_links(docs).ends.len() == 2 * naming_links(docs),
        0 <= d < docs.len() && 0 <= l < docs[d].links.len() && trim(
            docs[d].links[l].target_note,
        ).len() > 0 ==> is_tied_link(
            noted(docs).0.with_all_links(docs),
            docs,
            d,
            docs[d].links[l],
        ),
        rag_extends(rag_of(docs), noted(docs).0.with_all_links(docs)),
{
    assert(docs.take(docs.len() as int) =~= docs);
    lemma_all_links_lead(docs, docs.len() as int);
    let g = noted(docs).0.with_all_links(docs);
    let gs = noted(docs).1;
    assert(g.edges.len() == g.ends.len()) by {
        reveal(rag_names_hold);
    }
    if gs.len() > 0 {
        shared_tags_tie_notes(g, gs, 0);
    }
}

} // verus!
