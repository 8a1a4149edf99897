//! The knowledge graph: notes, the links between them, and what can be asked of
//! both.

use crate::ast::{AstLink, AstTag, DocumentModel, LinkModel, LinkType, ParsedDocument, TagModel};
use crate::diagnostics::in_range;
use crate::digraph::GRAPH_LIMIT;
use crate::routes::shortest_route;
use crate::sorting::{lemma_sorted_views, sort_by, sorted_by};
use crate::text::{
    clone_opt, clone_strings, group_views, lowercase, opt_view, to_lowercase, views,
};
use crate::wiring::{ins, lemma_ins, outs, Wiring, WiringModel};
use vstd::hash_map::StringHashMap;
use vstd::prelude::*;

verus! {

// ---------------------------------------------------------------------------
// Nodes and edges
// ---------------------------------------------------------------------------

/// What a node stands for.
#[derive(Debug, Clone, Copy, PartialEq, Eq, Structural)]
pub enum NodeType {
    Document,
    /// A note that is linked to and does not exist.
    Dangling,
    Tag,
}

/// How two nodes are connected.
#[derive(Debug, Clone, Copy, PartialEq, Eq, Structural)]
pub enum EdgeType {
    Wikilink,
    Embed,
    Markdown,
    TaggedWith,
}

/// How central a note is: a number by which ranks are compared, and the rank as
/// it is shown, with two decimals and with four.
#[derive(Debug)]
pub struct Rank {
    pub key: u32,
    pub short: String,
    pub long: String,
}

/// What a `Rank` says.
pub struct RankModel {
    pub key: u32,
    pub short: Seq<char>,
    pub long: Seq<char>,
}

impl View for Rank {
    type V = RankModel;

    open spec fn view(&self) -> RankModel {
        RankModel { key: self.key, short: self.short@, long: self.long@ }
    }
}

/// The rank of a note that was not ranked.
pub open spec fn no_rank() -> RankModel {
    RankModel { key: 0, short: "0.00"@, long: "0.0000"@ }
}

impl Rank {
    /// The rank of a note that was not ranked.
    pub fn none() -> (r: Rank)
        ensures
            r@ == no_rank(),
    {
        Rank { key: 0, short: "0.00".to_owned(), long: "0.0000".to_owned() }
    }
}

impl Clone for Rank {
    fn clone(&self) -> (r: Self)
        ensures
            r@ == self@,
    {
        Rank { key: self.key, short: self.short.clone(), long: self.long.clone() }
    }
}

/// A note in the graph.
#[derive(Debug)]
pub struct NoteNode {
    pub id: String,
    pub title: String,
    pub path: Option<String>,
    pub node_type: NodeType,
    pub tags: Vec<String>,
    pub word_count: usize,
    pub pagerank: Rank,
}

/// A link in the graph.
#[derive(Debug)]
pub struct LinkEdge {
    pub edge_type: EdgeType,
    pub heading: Option<String>,
    pub block: Option<String>,
    pub alias: Option<String>,
    pub line_number: usize,
    pub context_snippet: Option<String>,
    /// In tenths.
    pub weight: u32,
}

/// What a `NoteNode` says.
pub struct NoteModel {
    pub id: Seq<char>,
    pub title: Seq<char>,
    pub path: Option<Seq<char>>,
    pub node_type: NodeType,
    pub tags: Seq<Seq<char>>,
    pub word_count: usize,
    pub pagerank: RankModel,
}

/// What a `LinkEdge` says.
pub struct EdgeModel {
    pub edge_type: EdgeType,
    pub heading: Option<Seq<char>>,
    pub block: Option<Seq<char>>,
    pub alias: Option<Seq<char>>,
    pub line_number: usize,
    pub context_snippet: Option<Seq<char>>,
    pub weight: u32,
}

impl View for NoteNode {
    type V = NoteModel;

    open spec fn view(&self) -> NoteModel {
        NoteModel {
            id: self.id@,
            title: self.title@,
            path: opt_view(self.path),
            node_type: self.node_type,
            tags: views(self.tags@),
            word_count: self.word_count,
            pagerank: self.pagerank@,
        }
    }
}

impl View for LinkEdge {
    type V = EdgeModel;

    open spec fn view(&self) -> EdgeModel {
        EdgeModel {
            edge_type: self.edge_type,
            heading: opt_view(self.heading),
            block: opt_view(self.block),
            alias: opt_view(self.alias),
            line_number: self.line_number,
            context_snippet: opt_view(self.context_snippet),
            weight: self.weight,
        }
    }
}

impl Clone for NoteNode {
    fn clone(&self) -> (r: Self)
        ensures
            r@ == self@,
    {
        NoteNode {
            id: self.id.clone(),
            title: self.title.clone(),
            path: clone_opt(&self.path),
            node_type: self.node_type,
            tags: clone_strings(&self.tags),
            word_count: self.word_count,
            pagerank: self.pagerank.clone(),
        }
    }
}

impl Clone for LinkEdge {
    fn clone(&self) -> (r: Self)
        ensures
            r@ == self@,
    {
        LinkEdge {
            edge_type: self.edge_type,
            heading: clone_opt(&self.heading),
            block: clone_opt(&self.block),
            alias: clone_opt(&self.alias),
            line_number: self.line_number,
            context_snippet: clone_opt(&self.context_snippet),
            weight: self.weight,
        }
    }
}

/// The names of tags.
pub open spec fn tag_names(tags: Seq<TagModel>) -> Seq<Seq<char>> {
    tags.map_values(|t: TagModel| t.name)
}

/// The names of tags.
pub fn tag_name_list(tags: &Vec<AstTag>) -> (r: Vec<String>)
    ensures
        views(r@) == tag_names(views(tags@)),
{
    broadcast use group_views;

    let ghost wanted = tag_names(views(tags@));
    let mut out: Vec<String> = Vec::new();
    let mut i: usize = 0;
    while i < tags.len()
        invariant
            i <= tags@.len(),
            wanted == tag_names(views(tags@)),
            views(out@) == wanted.take(i as int),
        decreases tags.len() - i,
    {
        out.push(tags[i].name.clone());
        i += 1;
        assert(wanted.take(i as int) =~= wanted.take(i as int - 1).push(wanted[i as int - 1]));
    }
    assert(wanted.take(i as int) =~= wanted);
    out
}

/// The node of a note.
pub open spec fn document_node(doc: DocumentModel) -> NoteModel {
    NoteModel {
        id: doc.title,
        title: doc.title,
        path: Some(doc.path),
        node_type: NodeType::Document,
        tags: tag_names(doc.tags),
        word_count: doc.word_count as usize,
        pagerank: no_rank(),
    }
}

/// The node of a note that does not exist.
pub open spec fn dangling_node(name: Seq<char>) -> NoteModel {
    NoteModel {
        id: name,
        title: name,
        path: None,
        node_type: NodeType::Dangling,
        tags: Seq::empty(),
        word_count: 0,
        pagerank: no_rank(),
    }
}

/// The edge of a link. An embed weighs more than a wikilink, a Markdown link
/// less.
pub open spec fn link_edge(link: LinkModel) -> EdgeModel {
    EdgeModel {
        edge_type: match link.link_type {
            LinkType::Embed => EdgeType::Embed,
            LinkType::Wikilink => EdgeType::Wikilink,
            LinkType::Markdown => EdgeType::Markdown,
        },
        heading: link.target_heading,
        block: link.target_block,
        alias: link.alias,
        line_number: link.line_number,
        context_snippet: link.context_snippet,
        weight: match link.link_type {
            LinkType::Embed => 20,
            LinkType::Wikilink => 10,
            LinkType::Markdown => 8,
        },
    }
}

fn make_edge(link: &AstLink) -> (r: LinkEdge)
    ensures
        r@ == link_edge(link@),
{
    let (edge_type, weight): (EdgeType, u32) = match link.link_type {
        LinkType::Embed => (EdgeType::Embed, 20),
        LinkType::Wikilink => (EdgeType::Wikilink, 10),
        LinkType::Markdown => (EdgeType::Markdown, 8),
    };
    LinkEdge {
        edge_type,
        heading: clone_opt(&link.target_heading),
        block: clone_opt(&link.target_block),
        alias: clone_opt(&link.alias),
        line_number: link.line_number,
        context_snippet: clone_opt(&link.context_snippet),
        weight,
    }
}

// ---------------------------------------------------------------------------
// The graph
// ---------------------------------------------------------------------------

/// Notes and links, and the names under which notes are found.
pub struct KnowledgeGraph {
    wiring: Wiring,
    nodes: Vec<NoteNode>,
    edges: Vec<LinkEdge>,
    by_id: StringHashMap<usize>,
    by_title: StringHashMap<usize>,
    by_alias: StringHashMap<usize>,
}

/// What a `KnowledgeGraph` holds. Edge `e` leads from `ends[e].0` to
/// `ends[e].1`. Titles and aliases are in lower case.
pub struct GraphModel {
    pub nodes: Seq<NoteModel>,
    pub edges: Seq<EdgeModel>,
    pub ends: Seq<(usize, usize)>,
    pub by_id: Map<Seq<char>, usize>,
    pub by_title: Map<Seq<char>, usize>,
    pub by_alias: Map<Seq<char>, usize>,
}

impl GraphModel {
    /// The nodes and the edges between them.
    pub open spec fn wiring(self) -> WiringModel {
        WiringModel { nodes: self.nodes.len(), ends: self.ends }
    }

    /// Every edge connects two nodes and weighs no more than an embed, and every name
    /// leads to a node.
    pub open spec fn wf(self) -> bool {
        &&& self.wiring().wf()
        &&& self.edges.len() == self.ends.len()
        &&& forall|e: int| 0 <= e < self.edges.len() ==> (#[trigger] self.edges[e]).weight <= 20
        &&& in_range(self.by_id, self.nodes.len())
        &&& in_range(self.by_title, self.nodes.len())
        &&& in_range(self.by_alias, self.nodes.len())
    }

    /// The names leading to node `n`.
    pub open spec fn with_aliases(self, names: Seq<Seq<char>>, n: usize) -> GraphModel
        decreases names.len(),
    {
        if names.len() == 0 {
            self
        } else {
            let before = self.with_aliases(names.drop_last(), n);
            GraphModel { by_alias: before.by_alias.insert(lowercase(names.last()), n), ..before }
        }
    }

    /// The graph with a note.
    pub open spec fn with_document(self, doc: DocumentModel) -> GraphModel {
        let n = self.nodes.len() as usize;
        GraphModel {
            nodes: self.nodes.push(document_node(doc)),
            edges: self.edges,
            ends: self.ends,
            by_id: self.by_id.insert(doc.title, n),
            by_title: self.by_title.insert(lowercase(doc.title), n),
            by_alias: self.with_aliases(doc.frontmatter.aliases, n).by_alias,
        }
    }

    /// The graph with these notes.
    pub open spec fn with_documents(self, docs: Seq<DocumentModel>) -> GraphModel
        decreases docs.len(),
    {
        if docs.len() == 0 {
            self
        } else {
            self.with_documents(docs.drop_last()).with_document(docs.last())
        }
    }

    /// The node that a link target names: by title, by alias, or by its exact
    /// name.
    pub open spec fn target(self, name: Seq<char>) -> Option<usize> {
        let low = lowercase(name);
        if self.by_title.contains_key(low) {
            Some(self.by_title[low])
        } else if self.by_alias.contains_key(low) {
            Some(self.by_alias[low])
        } else if self.by_id.contains_key(name) {
            Some(self.by_id[name])
        } else {
            None
        }
    }

    /// The graph in which the target has a node: a dangling one is added where
    /// there is none.
    pub open spec fn with_target(self, name: Seq<char>) -> GraphModel {
        let n = self.nodes.len() as usize;
        if self.target(name) is Some {
            self
        } else {
            GraphModel {
                nodes: self.nodes.push(dangling_node(name)),
                by_id: self.by_id.insert(name, n),
                by_title: self.by_title.insert(lowercase(name), n),
                ..self
            }
        }
    }

    /// The node of a target once it has one.
    pub open spec fn target_node(self, name: Seq<char>) -> usize {
        match self.target(name) {
            Some(n) => n,
            None => self.nodes.len() as usize,
        }
    }

    /// The graph with a link from node `source`.
    pub open spec fn with_link(self, source: usize, link: LinkModel) -> GraphModel {
        let g = self.with_target(link.target_note);
        GraphModel {
            edges: g.edges.push(link_edge(link)),
            ends: g.ends.push((source, self.target_node(link.target_note))),
            ..g
        }
    }

    /// The graph with these links from node `source`.
    pub open spec fn with_links(self, source: usize, links: Seq<LinkModel>) -> GraphModel
        decreases links.len(),
    {
        if links.len() == 0 {
            self
        } else {
            self.with_links(source, links.drop_last()).with_link(source, links.last())
        }
    }

    /// The graph with the links of these notes.
    pub open spec fn with_all_links(self, docs: Seq<DocumentModel>) -> GraphModel
        decreases docs.len(),
    {
        if docs.len() == 0 {
            self
        } else {
            let before = self.with_all_links(docs.drop_last());
            if before.by_id.contains_key(docs.last().title) {
                before.with_links(before.by_id[docs.last().title], docs.last().links)
            } else {
                before
            }
        }
    }

    /// The node with this title.
    pub open spec fn titled(self, title: Seq<char>) -> Option<usize> {
        if self.by_title.contains_key(lowercase(title)) {
            Some(self.by_title[lowercase(title)])
        } else {
            None
        }
    }

    /// How many edges enter a node.
    pub open spec fn in_degree(self, n: int) -> nat {
        ins(self.ends, n).len()
    }

    /// How many edges leave a node.
    pub open spec fn out_degree(self, n: int) -> nat {
        outs(self.ends, n).len()
    }
}

/// A graph without nodes.
pub open spec fn empty_graph() -> GraphModel {
    GraphModel {
        nodes: Seq::empty(),
        edges: Seq::empty(),
        ends: Seq::empty(),
        by_id: Map::empty(),
        by_title: Map::empty(),
        by_alias: Map::empty(),
    }
}

/// The graph of these notes: all notes first, then their links.
pub open spec fn graph_of(docs: Seq<DocumentModel>) -> GraphModel {
    empty_graph().with_documents(docs).with_all_links(docs)
}

/// Whether the graph of these notes is not too large.
pub open spec fn fits(docs: Seq<DocumentModel>) -> bool {
    graph_of(docs).nodes.len() <= GRAPH_LIMIT && graph_of(docs).ends.len() <= GRAPH_LIMIT
}

// ---------------------------------------------------------------------------
// Building only adds
// ---------------------------------------------------------------------------

proof fn lemma_aliases(g: GraphModel, names: Seq<Seq<char>>, n: usize)
    ensures
        ({
            let r = g.with_aliases(names, n);
            &&& r.nodes == g.nodes
            &&& r.edges == g.edges
            &&& r.ends == g.ends
            &&& r.by_id == g.by_id
            &&& r.by_title == g.by_title
            &&& forall|k: Seq<char>| #[trigger]
                r.by_alias.contains_key(k) ==> r.by_alias[k] == n || (g.by_alias.contains_key(k)
                    && r.by_alias[k] == g.by_alias[k])
        }),
    decreases names.len(),
{
    if names.len() > 0 {
        lemma_aliases(g, names.drop_last(), n);
    }
}

proof fn lemma_with_document(g: GraphModel, doc: DocumentModel)
    requires
        g.wf(),
        g.nodes.len() < GRAPH_LIMIT,
    ensures
        g.with_document(doc).wf(),
{
    lemma_aliases(g, doc.frontmatter.aliases, g.nodes.len() as usize);
}

proof fn lemma_with_documents_size(g: GraphModel, docs: Seq<DocumentModel>)
    ensures
        g.with_documents(docs).nodes.len() == g.nodes.len() + docs.len(),
        g.with_documents(docs).ends == g.ends,
    decreases docs.len(),
{
    if docs.len() > 0 {
        lemma_with_documents_size(g, docs.drop_last());
    }
}

proof fn lemma_with_links_size(g: GraphModel, source: usize, links: Seq<LinkModel>)
    ensures
        g.with_links(source, links).nodes.len() >= g.nodes.len(),
        g.with_links(source, links).ends.len() == g.ends.len() + links.len(),
    decreases links.len(),
{
    if links.len() > 0 {
        lemma_with_links_size(g, source, links.drop_last());
    }
}

proof fn lemma_links_prefix(g: GraphModel, source: usize, links: Seq<LinkModel>, n: int)
    requires
        0 <= n <= links.len(),
    ensures
        g.with_links(source, links.take(n)).nodes.len() <= g.with_links(source, links).nodes.len(),
        g.with_links(source, links.take(n)).ends.len() <= g.with_links(source, links).ends.len(),
    decreases links.len() - n,
{
    if n == links.len() {
        assert(links.take(n) =~= links);
    } else {
        lemma_links_prefix(g, source, links, n + 1);
        assert(links.take(n + 1).drop_last() =~= links.take(n));
    }
}

proof fn lemma_all_links_prefix(g: GraphModel, docs: Seq<DocumentModel>, n: int)
    requires
        0 <= n <= docs.len(),
    ensures
        g.with_all_links(docs.take(n)).nodes.len() <= g.with_all_links(docs).nodes.len(),
        g.with_all_links(docs.take(n)).ends.len() <= g.with_all_links(docs).ends.len(),
    decreases docs.len() - n,
{
    if n == docs.len() {
        assert(docs.take(n) =~= docs);
    } else {
        lemma_all_links_prefix(g, docs, n + 1);
        assert(docs.take(n + 1).drop_last() =~= docs.take(n));
        let before = g.with_all_links(docs.take(n));
        if before.by_id.contains_key(docs[n].title) {
            lemma_with_links_size(before, before.by_id[docs[n].title], docs[n].links);
        }
    }
}

// ---------------------------------------------------------------------------
// Operations
// ---------------------------------------------------------------------------

impl View for KnowledgeGraph {
    type V = GraphModel;

    closed spec fn view(&self) -> GraphModel {
        GraphModel {
            nodes: views(self.nodes@),
            edges: views(self.edges@),
            ends: self.wiring@.ends,
            by_id: self.by_id@,
            by_title: self.by_title@,
            by_alias: self.by_alias@,
        }
    }
}

/// The two ends of every edge, and its weight in millionths.
pub open spec fn weighted_ends(g: GraphModel) -> Seq<(usize, usize, u64)> {
    Seq::new(
        g.ends.len(),
        |e: int| (g.ends[e].0, g.ends[e].1, (g.edges[e].weight * 100_000) as u64),
    )
}

/// The nodes that are notes without any link.
pub open spec fn orphan_nodes(g: GraphModel, n: int) -> Seq<NoteModel>
    decreases n,
{
    if n <= 0 {
        Seq::empty()
    } else if g.in_degree(n - 1) == 0 && g.out_degree(n - 1) == 0 && g.nodes[n - 1].node_type
        == NodeType::Document {
        orphan_nodes(g, n - 1).push(g.nodes[n - 1])
    } else {
        orphan_nodes(g, n - 1)
    }
}

/// The titles of the dangling nodes among the first `n`, and how many edges
/// enter each.
pub open spec fn dangling_nodes(g: GraphModel, n: int) -> Seq<(Seq<char>, usize)>
    decreases n,
{
    if n <= 0 {
        Seq::empty()
    } else if g.nodes[n - 1].node_type == NodeType::Dangling {
        dangling_nodes(g, n - 1).push((g.nodes[n - 1].title, g.in_degree(n - 1) as usize))
    } else {
        dangling_nodes(g, n - 1)
    }
}

/// Whether a page has more references than another.
pub open spec fn more_references(a: (Seq<char>, usize), b: (Seq<char>, usize)) -> bool {
    a.1 > b.1
}

fn references_less(a: &(String, usize), b: &(String, usize)) -> (r: bool)
    ensures
        r == more_references(a@, b@),
{
    a.1 > b.1
}

/// A backlink: the node that links, and the link.
pub open spec fn backlinks_from(g: GraphModel, edges: Seq<(usize, usize)>) -> Seq<
    (NoteModel, EdgeModel),
> {
    edges.map_values(|e: (usize, usize)| (g.nodes[e.1 as int], g.edges[e.0 as int]))
}

/// A node as the viewer shows it.
#[derive(Debug)]
pub struct D3Node {
    pub id: String,
    pub title: String,
    pub group: String,
    pub pagerank: Rank,
    pub in_degree: usize,
    pub out_degree: usize,
    pub is_dangling: bool,
}

/// An edge as the viewer shows it.
#[derive(Debug)]
pub struct D3Link {
    pub source: String,
    pub target: String,
    pub edge_type: String,
    /// In tenths.
    pub weight: u32,
}

/// The graph as the viewer shows it.
#[derive(Debug)]
pub struct D3GraphData {
    pub nodes: Vec<D3Node>,
    pub links: Vec<D3Link>,
    pub total_nodes: usize,
    pub total_edges: usize,
}

/// What a `D3Node` says.
pub struct D3NodeModel {
    pub id: Seq<char>,
    pub title: Seq<char>,
    pub group: Seq<char>,
    pub pagerank: RankModel,
    pub in_degree: usize,
    pub out_degree: usize,
    pub is_dangling: bool,
}

/// What a `D3Link` says.
pub struct D3LinkModel {
    pub source: Seq<char>,
    pub target: Seq<char>,
    pub edge_type: Seq<char>,
    pub weight: u32,
}

impl View for D3Node {
    type V = D3NodeModel;

    open spec fn view(&self) -> D3NodeModel {
        D3NodeModel {
            id: self.id@,
            title: self.title@,
            group: self.group@,
            pagerank: self.pagerank@,
            in_degree: self.in_degree,
            out_degree: self.out_degree,
            is_dangling: self.is_dangling,
        }
    }
}

impl View for D3Link {
    type V = D3LinkModel;

    open spec fn view(&self) -> D3LinkModel {
        D3LinkModel {
            source: self.source@,
            target: self.target@,
            edge_type: self.edge_type@,
            weight: self.weight,
        }
    }
}

/// How an edge type is called.
pub open spec fn edge_type_name(t: EdgeType) -> Seq<char> {
    match t {
        EdgeType::Wikilink => "wikilink"@,
        EdgeType::Embed => "embed"@,
        EdgeType::Markdown => "markdown"@,
        EdgeType::TaggedWith => "tagged_with"@,
    }
}

/// A node as the viewer shows it, grouped by its first tag.
pub open spec fn d3_node(g: GraphModel, i: int) -> D3NodeModel {
    let n = g.nodes[i];
    D3NodeModel {
        id: n.id,
        title: n.title,
        group: if n.tags.len() > 0 {
            n.tags[0]
        } else if n.node_type == NodeType::Dangling {
            "dangling"@
        } else {
            "default"@
        },
        pagerank: n.pagerank,
        in_degree: g.in_degree(i) as usize,
        out_degree: g.out_degree(i) as usize,
        is_dangling: n.node_type == NodeType::Dangling,
    }
}

/// An edge as the viewer shows it.
pub open spec fn d3_link(g: GraphModel, e: int) -> D3LinkModel {
    D3LinkModel {
        source: g.nodes[g.ends[e].0 as int].id,
        target: g.nodes[g.ends[e].1 as int].id,
        edge_type: edge_type_name(g.edges[e].edge_type),
        weight: g.edges[e].weight,
    }
}

/// The nodes with these ranks.
pub open spec fn ranked(nodes: Seq<NoteModel>, ranks: Seq<RankModel>) -> Seq<NoteModel> {
    Seq::new(nodes.len(), |i: int| NoteModel { pagerank: ranks[i], ..nodes[i] })
}

impl Default for KnowledgeGraph {
    fn default() -> (r: Self)
        ensures
            r.wf(),
            r@ == empty_graph(),
    {
        KnowledgeGraph::new()
    }
}

impl KnowledgeGraph {
    /// The wiring holds the edges, every edge connects two nodes, and every name
    /// leads to a node.
    pub closed spec fn wf(&self) -> bool {
        &&& self.wiring.wf()
        &&& self.wiring@.nodes == self.nodes@.len()
        &&& self@.wf()
    }

    /// What well-formedness says of the model.
    pub proof fn lemma_wf(&self)
        requires
            self.wf(),
        ensures
            self@.wf(),
    {
    }

    /// A graph without nodes.
    pub fn new() -> (r: Self)
        ensures
            r.wf(),
            r@ == empty_graph(),
    {
        broadcast use group_views;

        KnowledgeGraph {
            wiring: Wiring::new(),
            nodes: Vec::new(),
            edges: Vec::new(),
            by_id: StringHashMap::new(),
            by_title: StringHashMap::new(),
            by_alias: StringHashMap::new(),
        }
    }

    fn push_document(&mut self, doc: &ParsedDocument)
        requires
            old(self).wf(),
            old(self)@.nodes.len() < GRAPH_LIMIT,
        ensures
            final(self).wf(),
            final(self)@ == old(self)@.with_document(doc@),
    {
        broadcast use group_views;

        let ghost g = self@;
        let ghost names = views(doc.frontmatter.aliases@);
        let n: usize = self.nodes.len();
        proof {
            lemma_with_document(g, doc@);
        }
        self.wiring.push_node();
        self.nodes.push(
            NoteNode {
                id: doc.title.clone(),
                title: doc.title.clone(),
                path: Some(doc.path.clone()),
                node_type: NodeType::Document,
                tags: tag_name_list(&doc.tags),
                word_count: doc.word_count,
                pagerank: Rank::none(),
            },
        );
        self.by_id.insert(doc.title.clone(), n);
        self.by_title.insert(to_lowercase(doc.title.as_str()), n);
        let mut i: usize = 0;
        assert(names.take(0) =~= Seq::empty());
        let ghost before = *self;
        while i < doc.frontmatter.aliases.len()
            invariant
                i <= doc.frontmatter.aliases@.len(),
                names == views(doc.frontmatter.aliases@),
                self.wiring == before.wiring,
                self.nodes == before.nodes,
                self.edges == before.edges,
                self.by_id == before.by_id,
                self.by_title == before.by_title,
                self.by_alias@ == g.with_aliases(names.take(i as int), n).by_alias,
            decreases doc.frontmatter.aliases.len() - i,
        {
            assert(names.take(i as int + 1).drop_last() =~= names.take(i as int));
            self.by_alias.insert(to_lowercase(doc.frontmatter.aliases[i].as_str()), n);
            i += 1;
        }
        assert(names.take(i as int) =~= names);
        assert(self@ == g.with_document(doc@));
    }

    fn find_target(&self, name: &str) -> (r: Option<usize>)
        ensures
            r == self@.target(name@),
    {
        let low = to_lowercase(name);
        if let Some(i) = self.by_title.get(low.as_str()) {
            return Some(*i);
        }
        if let Some(i) = self.by_alias.get(low.as_str()) {
            return Some(*i);
        }
        match self.by_id.get(name) {
            Some(i) => Some(*i),
            None => None,
        }
    }

    fn resolve_or_create_dangling(&mut self, name: &str) -> (r: usize)
        requires
            old(self).wf(),
            old(self)@.with_target(name@).nodes.len() <= GRAPH_LIMIT,
        ensures
            final(self).wf(),
            final(self)@ == old(self)@.with_target(name@),
            r == old(self)@.target_node(name@),
            r < final(self)@.nodes.len(),
    {
        broadcast use group_views;

        if let Some(i) = self.find_target(name) {
            return i;
        }
        let n: usize = self.nodes.len();
        self.wiring.push_node();
        let tags: Vec<String> = Vec::new();
        self.nodes.push(
            NoteNode {
                id: name.to_owned(),
                title: name.to_owned(),
                path: None,
                node_type: NodeType::Dangling,
                tags,
                word_count: 0,
                pagerank: Rank::none(),
            },
        );
        self.by_id.insert(name.to_owned(), n);
        self.by_title.insert(to_lowercase(name), n);
        n
    }

    fn push_link(&mut self, source: usize, link: &AstLink)
        requires
            old(self).wf(),
            source < old(self)@.nodes.len(),
            old(self)@.with_link(source, link@).nodes.len() <= GRAPH_LIMIT,
            old(self)@.with_link(source, link@).ends.len() <= GRAPH_LIMIT,
        ensures
            final(self).wf(),
            final(self)@ == old(self)@.with_link(source, link@),
    {
        broadcast use group_views;

        let target: usize = self.resolve_or_create_dangling(link.target_note.as_str());
        self.wiring.push_edge(source, target);
        self.edges.push(make_edge(link));
    }

    /// The graph of these notes. Its nodes are not ranked yet.
    pub fn from_documents(docs: &Vec<ParsedDocument>) -> (r: Self)
        requires
            fits(views(docs@)),
        ensures
            r.wf(),
            r@ == graph_of(views(docs@)),
    {
        let ghost all = views(docs@);
        let mut g = KnowledgeGraph::new();
        let mut i: usize = 0;
        assert(all.take(0) =~= Seq::empty());
        while i < docs.len()
            invariant
                i <= docs@.len(),
                all == views(docs@),
                fits(all),
                g.wf(),
                g@ == empty_graph().with_documents(all.take(i as int)),
            decreases docs.len() - i,
        {
            assert(all.take(i as int + 1).drop_last() =~= all.take(i as int));
            proof {
                lemma_with_documents_size(empty_graph(), all.take(i as int));
                lemma_with_documents_size(empty_graph(), all);
                lemma_all_links_prefix(empty_graph().with_documents(all), all, 0);
                assert(all.take(0) =~= Seq::empty());
            }
            g.push_document(&docs[i]);
            i += 1;
        }
        assert(all.take(i as int) =~= all);
        let ghost base = empty_graph().with_documents(all);
        let mut j: usize = 0;
        assert(all.take(0) =~= Seq::empty());
        while j < docs.len()
            invariant
                j <= docs@.len(),
                all == views(docs@),
                fits(all),
                base == empty_graph().with_documents(all),
                g.wf(),
                g@ == base.with_all_links(all.take(j as int)),
            decreases docs.len() - j,
        {
            assert(all.take(j as int + 1).drop_last() =~= all.take(j as int));
            let doc = &docs[j];
            let ghost before = g@;
            proof {
                lemma_all_links_prefix(base, all, j as int + 1);
            }
            let source: Option<usize> = match g.by_id.get(doc.title.as_str()) {
                Some(s) => Some(*s),
                None => None,
            };
            if let Some(s) = source {
                let ghost links = views(doc.links@);
                let mut k: usize = 0;
                assert(links.take(0) =~= Seq::empty());
                while k < doc.links.len()
                    invariant
                        k <= doc.links@.len(),
                        links == views(doc.links@),
                        s < before.nodes.len(),
                        before.nodes.len() <= g@.nodes.len(),
                        before.with_links(s, links).nodes.len() <= GRAPH_LIMIT,
                        before.with_links(s, links).ends.len() <= GRAPH_LIMIT,
                        g.wf(),
                        g@ == before.with_links(s, links.take(k as int)),
                    decreases doc.links.len() - k,
                {
                    assert(links.take(k as int + 1).drop_last() =~= links.take(k as int));
                    proof {
                        lemma_links_prefix(before, s, links, k as int + 1);
                    }
                    g.push_link(s, &doc.links[k]);
                    k += 1;
                }
                assert(links.take(k as int) =~= links);
            }
            j += 1;
        }
        assert(all.take(j as int) =~= all);
        g
    }

    /// How many nodes there are.
    pub fn node_count(&self) -> (r: usize)
        ensures
            r == self@.nodes.len(),
    {
        self.nodes.len()
    }

    /// A node.
    pub fn node(&self, n: usize) -> (r: &NoteNode)
        requires
            n < self@.nodes.len(),
        ensures
            r@ == self@.nodes[n as int],
    {
        assert(views(self.nodes@)[n as int] == self.nodes@[n as int]@);
        &self.nodes[n]
    }

    /// The two ends of every edge, and its weight in millionths.
    pub fn weighted_edges(&self) -> (r: Vec<(usize, usize, u64)>)
        requires
            self.wf(),
        ensures
            r@ == weighted_ends(self@),
    {
        broadcast use group_views;

        let ghost want = weighted_ends(self@);
        let mut r: Vec<(usize, usize, u64)> = Vec::new();
        let mut e: usize = 0;
        while e < self.edges.len()
            invariant
                e <= self.edges@.len(),
                self.wf(),
                want == weighted_ends(self@),
                r@ == want.take(e as int),
            decreases self.edges.len() - e,
        {
            let (s, t): (usize, usize) = self.wiring.ends_of(e);
            assert(self@.ends[e as int] == (s, t));
            assert(views(self.edges@)[e as int] == self.edges@[e as int]@);
            r.push((s, t, self.edges[e].weight as u64 * 100_000));
            e += 1;
            assert(r@ =~= want.take(e as int));
        }
        assert(want.take(e as int) =~= want);
        r
    }

    /// How many edges leave a node.
    pub fn out_degree(&self, n: usize) -> (r: usize)
        requires
            self.wf(),
            n < self@.nodes.len(),
        ensures
            r == self@.out_degree(n as int),
    {
        self.wiring.edges_out(n).len()
    }

    /// How many edges enter a node.
    pub fn in_degree(&self, n: usize) -> (r: usize)
        requires
            self.wf(),
            n < self@.nodes.len(),
        ensures
            r == self@.in_degree(n as int),
    {
        self.wiring.edges_in(n).len()
    }

    /// The nodes from which the edges into a node come, the latest first.
    pub fn sources_of(&self, n: usize) -> (r: Vec<usize>)
        requires
            self.wf(),
            n < self@.nodes.len(),
        ensures
            r@ == ins(self@.ends, n as int).map_values(|e: (usize, usize)| e.1),
    {
        self.wiring.sources_of(n)
    }

    /// Gives the nodes these ranks.
    pub fn assign_ranks(&mut self, ranks: &Vec<Rank>)
        requires
            old(self).wf(),
            ranks@.len() == old(self)@.nodes.len(),
        ensures
            final(self).wf(),
            final(self)@ == (GraphModel {
                nodes: ranked(old(self)@.nodes, views(ranks@)),
                ..old(self)@
            }),
    {
        let ghost nodes0 = views(self.nodes@);
        let ghost want = ranked(nodes0, views(ranks@));
        let n: usize = self.nodes.len();
        let mut i: usize = 0;
        while i < n
            invariant
                i <= n,
                n == self.nodes@.len(),
                n == ranks@.len(),
                n == nodes0.len(),
                want == ranked(nodes0, views(ranks@)),
                self.wiring == old(self).wiring,
                self.edges == old(self).edges,
                self.by_id == old(self).by_id,
                self.by_title == old(self).by_title,
                self.by_alias == old(self).by_alias,
                forall|k: int| 0 <= k < i ==> views(self.nodes@)[k] == #[trigger] want[k],
                forall|k: int| i <= k < n ==> views(self.nodes@)[k] == #[trigger] nodes0[k],
            decreases n - i,
        {
            let rank = ranks[i].clone();
            assert(views(self.nodes@)[i as int] == nodes0[i as int]);
            let mut node = self.nodes[i].clone();
            node.pagerank = rank;
            let ghost before = self.nodes@;
            self.nodes.set(i, node);
            assert(views(self.nodes@) =~= views(before).update(i as int, node@));
            assert(views(ranks@)[i as int] == ranks@[i as int]@);
            assert(node@ == want[i as int]);
            i += 1;
            assert forall|k: int| 0 <= k < i implies views(self.nodes@)[k] == #[trigger] want[k] by {
                if k < i - 1 {
                    assert(views(before)[k] == want[k]);
                }
            }
            assert forall|k: int| i <= k < n implies views(self.nodes@)[k] == #[trigger] nodes0[k] by {
                assert(views(before)[k] == nodes0[k]);
            }
        }
        assert(views(self.nodes@) =~= want);
    }

    fn find_title(&self, title: &str) -> (r: Option<usize>)
        ensures
            r == self@.titled(title@),
    {
        let low = to_lowercase(title);
        match self.by_title.get(low.as_str()) {
            Some(i) => Some(*i),
            None => None,
        }
    }

    /// The rank of the note with this title; none where there is no such note.
    pub fn get_pagerank(&self, title: &str) -> (r: Rank)
        requires
            self.wf(),
        ensures
            r@ == match self@.titled(title@) {
                Some(n) => self@.nodes[n as int].pagerank,
                None => no_rank(),
            },
    {
        match self.find_title(title) {
            Some(n) => self.node(n).pagerank.clone(),
            None => Rank::none(),
        }
    }

    /// How many links lead to the note with this title, and how many from it.
    pub fn degree(&self, title: &str) -> (r: Option<(usize, usize)>)
        requires
            self.wf(),
        ensures
            match (r, self@.titled(title@)) {
                (Some(d), Some(n)) => d.0 == self@.in_degree(n as int) && d.1 == self@.out_degree(
                    n as int,
                ),
                (None, None) => true,
                _ => false,
            },
    {
        match self.find_title(title) {
            Some(n) => Some((self.in_degree(n), self.out_degree(n))),
            None => None,
        }
    }

    /// The links that lead to a note, named by its title or an alias, the latest
    /// first, each with the note it comes from.
    pub fn get_backlinks(&self, note_title: &str) -> (r: Vec<(NoteNode, LinkEdge)>)
        requires
            self.wf(),
        ensures
            views(r@) == ({
                let low = lowercase(note_title@);
                if self@.by_title.contains_key(low) {
                    backlinks_from(self@, ins(self@.ends, self@.by_title[low] as int))
                } else if self@.by_alias.contains_key(low) {
                    backlinks_from(self@, ins(self@.ends, self@.by_alias[low] as int))
                } else {
                    Seq::empty()
                }
            }),
    {
        broadcast use group_views;

        let low = to_lowercase(note_title);
        let place: Option<usize> = match self.by_title.get(low.as_str()) {
            Some(i) => Some(*i),
            None => match self.by_alias.get(low.as_str()) {
                Some(i) => Some(*i),
                None => None,
            },
        };
        let mut out: Vec<(NoteNode, LinkEdge)> = Vec::new();
        if let Some(n) = place {
            let edges = self.wiring.edges_in(n);
            let ghost wanted = backlinks_from(self@, edges@);
            proof {
                lemma_ins(self@.ends, n as int);
            }
            let mut i: usize = 0;
            while i < edges.len()
                invariant
                    i <= edges@.len(),
                    self.wf(),
                    wanted == backlinks_from(self@, edges@),
                    forall|k: int|
                        0 <= k < edges@.len() ==> (#[trigger] edges@[k]).0 < self@.ends.len()
                            && edges@[k].1 < self@.nodes.len(),
                    views(out@) == wanted.take(i as int),
                decreases edges.len() - i,
            {
                let (e, s): (usize, usize) = edges[i];
                assert(edges@[i as int] == (e, s));
                assert(views(self.nodes@)[s as int] == self.nodes@[s as int]@);
                assert(views(self.edges@)[e as int] == self.edges@[e as int]@);
                out.push((self.nodes[s].clone(), self.edges[e].clone()));
                i += 1;
                assert(wanted.take(i as int) =~= wanted.take(i as int - 1).push(
                    wanted[i as int - 1],
                ));
            }
            assert(wanted.take(i as int) =~= wanted);
        }
        out
    }

    /// The titles along a shortest way from one note to another. There is none
    /// where a title is unknown or no way leads there.
    pub fn shortest_path(&self, from_title: &str, to_title: &str) -> (r: Option<Vec<String>>)
        requires
            self.wf(),
        ensures
            match (self@.titled(from_title@), self@.titled(to_title@)) {
                (Some(a), Some(b)) => match r {
                    Some(path) => exists|p: Seq<int>| #[trigger]
                        self@.wiring().is_shortest(p, a as int, b as int) && views(path@)
                            == p.map_values(|n: int| self@.nodes[n].title),
                    None => forall|q: Seq<int>| !#[trigger]
                        self@.wiring().leads(false, q, a as int, b as int),
                },
                _ => r is None,
            },
    {
        broadcast use group_views;

        let from: usize = match self.find_title(from_title) {
            Some(i) => i,
            None => {
                return None;
            },
        };
        let to: usize = match self.find_title(to_title) {
            Some(i) => i,
            None => {
                return None;
            },
        };
        assert(self.wiring@ == self@.wiring());
        match shortest_route(&self.wiring, self.nodes.len(), from, to) {
            None => None,
            Some(route) => {
                let ghost p = route@.map_values(|u: usize| u as int);
                let ghost wanted = p.map_values(|n: int| self@.nodes[n].title);
                let mut out: Vec<String> = Vec::new();
                let mut i: usize = 0;
                while i < route.len()
                    invariant
                        i <= route@.len(),
                        p == route@.map_values(|u: usize| u as int),
                        wanted == p.map_values(|n: int| self@.nodes[n].title),
                        self@.wiring().is_shortest(p, from as int, to as int),
                        views(out@) == wanted.take(i as int),
                    decreases route.len() - i,
                {
                    assert(p[i as int] == route@[i as int]);
                    let n: usize = route[i];
                    assert(views(self.nodes@)[n as int] == self.nodes@[n as int]@);
                    out.push(self.nodes[n].title.clone());
                    i += 1;
                    assert(wanted.take(i as int) =~= wanted.take(i as int - 1).push(
                        wanted[i as int - 1],
                    ));
                }
                assert(wanted.take(i as int) =~= wanted);
                Some(out)
            },
        }
    }

    /// The notes that no link leads to or from.
    pub fn get_orphans(&self) -> (r: Vec<NoteNode>)
        requires
            self.wf(),
        ensures
            views(r@) == orphan_nodes(self@, self@.nodes.len() as int),
    {
        broadcast use group_views;

        let mut out: Vec<NoteNode> = Vec::new();
        let mut i: usize = 0;
        while i < self.nodes.len()
            invariant
                i <= self.nodes@.len(),
                self.wf(),
                views(out@) == orphan_nodes(self@, i as int),
            decreases self.nodes.len() - i,
        {
            assert(views(self.nodes@)[i as int] == self.nodes@[i as int]@);
            if self.in_degree(i) == 0 && self.out_degree(i) == 0 && self.nodes[i].node_type
                == NodeType::Document {
                out.push(self.nodes[i].clone());
            }
            i += 1;
        }
        out
    }

    /// The notes that are linked to and do not exist, with the number of links
    /// to each, the most wanted first.
    pub fn get_wanted_pages(&self) -> (r: Vec<(String, usize)>)
        requires
            self.wf(),
        ensures
            views(r@) == sorted_by(
                dangling_nodes(self@, self@.nodes.len() as int),
                |a: (Seq<char>, usize), b: (Seq<char>, usize)| more_references(a, b),
            ),
    {
        broadcast use group_views;

        let mut out: Vec<(String, usize)> = Vec::new();
        let mut i: usize = 0;
        while i < self.nodes.len()
            invariant
                i <= self.nodes@.len(),
                self.wf(),
                views(out@) == dangling_nodes(self@, i as int),
            decreases self.nodes.len() - i,
        {
            assert(views(self.nodes@)[i as int] == self.nodes@[i as int]@);
            if self.nodes[i].node_type == NodeType::Dangling {
                out.push((self.nodes[i].title.clone(), self.in_degree(i)));
            }
            i += 1;
        }
        let ghost lt = |a: (String, usize), b: (String, usize)| more_references(a@, b@);
        let ghost lt_view = |a: (Seq<char>, usize), b: (Seq<char>, usize)| more_references(a, b);
        proof {
            lemma_sorted_views(out@, lt, lt_view);
        }
        sort_by(out, references_less, Ghost(lt))
    }

    /// The graph as the viewer shows it.
    pub fn to_d3_json(&self) -> (r: D3GraphData)
        requires
            self.wf(),
        ensures
            views(r.nodes@) == Seq::new(self@.nodes.len(), |i: int| d3_node(self@, i)),
            views(r.links@) == Seq::new(self@.ends.len(), |e: int| d3_link(self@, e)),
            r.total_nodes == self@.nodes.len(),
            r.total_edges == self@.ends.len(),
    {
        broadcast use group_views;

        let ghost want_nodes = Seq::new(self@.nodes.len(), |i: int| d3_node(self@, i));
        let mut nodes: Vec<D3Node> = Vec::new();
        let mut i: usize = 0;
        while i < self.nodes.len()
            invariant
                i <= self.nodes@.len(),
                self.wf(),
                want_nodes == Seq::new(self@.nodes.len(), |i: int| d3_node(self@, i)),
                views(nodes@) == want_nodes.take(i as int),
            decreases self.nodes.len() - i,
        {
            let n = &self.nodes[i];
            assert(views(self.nodes@)[i as int] == n@);
            let group = if n.tags.len() > 0 {
                assert(views(n.tags@)[0] == n.tags@[0]@);
                n.tags[0].clone()
            } else if n.node_type == NodeType::Dangling {
                "dangling".to_owned()
            } else {
                "default".to_owned()
            };
            nodes.push(
                D3Node {
                    id: n.id.clone(),
                    title: n.title.clone(),
                    group,
                    pagerank: n.pagerank.clone(),
                    in_degree: self.in_degree(i),
                    out_degree: self.out_degree(i),
                    is_dangling: n.node_type == NodeType::Dangling,
                },
            );
            i += 1;
            assert(want_nodes.take(i as int) =~= want_nodes.take(i as int - 1).push(
                want_nodes[i as int - 1],
            ));
        }
        assert(want_nodes.take(i as int) =~= want_nodes);
        let ghost want_links = Seq::new(self@.ends.len(), |e: int| d3_link(self@, e));
        let mut links: Vec<D3Link> = Vec::new();
        let mut e: usize = 0;
        while e < self.edges.len()
            invariant
                e <= self.edges@.len(),
                self.wf(),
                want_links == Seq::new(self@.ends.len(), |e: int| d3_link(self@, e)),
                views(links@) == want_links.take(e as int),
            decreases self.edges.len() - e,
        {
            let (s, t): (usize, usize) = self.wiring.ends_of(e);
            assert(self@.ends[e as int] == (s, t));
            assert(views(self.nodes@)[s as int] == self.nodes@[s as int]@);
            assert(views(self.nodes@)[t as int] == self.nodes@[t as int]@);
            assert(views(self.edges@)[e as int] == self.edges@[e as int]@);
            let name = match self.edges[e].edge_type {
                EdgeType::Wikilink => "wikilink",
                EdgeType::Embed => "embed",
                EdgeType::Markdown => "markdown",
                EdgeType::TaggedWith => "tagged_with",
            };
            links.push(
                D3Link {
                    source: self.nodes[s].id.clone(),
                    target: self.nodes[t].id.clone(),
                    edge_type: name.to_owned(),
                    weight: self.edges[e].weight,
                },
            );
            e += 1;
            assert(want_links.take(e as int) =~= want_links.take(e as int - 1).push(
                want_links[e as int - 1],
            ));
        }
        assert(want_links.take(e as int) =~= want_links);
        let total_nodes: usize = nodes.len();
        let total_edges: usize = links.len();
        D3GraphData { nodes, links, total_nodes, total_edges }
    }
}

// ---------------------------------------------------------------------------
// What holds of every graph of notes
// ---------------------------------------------------------------------------

/// Whether `h` came from `g` by adding dangling nodes and edges.
spec fn grew_from(h: GraphModel, g: GraphModel) -> bool {
    &&& h.nodes.len() >= g.nodes.len()
    &&& forall|i: int| 0 <= i < g.nodes.len() ==> #[trigger] h.nodes[i] == g.nodes[i]
    &&& forall|i: int|
        g.nodes.len() <= i < h.nodes.len() ==> (#[trigger] h.nodes[i]).node_type
            == NodeType::Dangling
    &&& forall|k: Seq<char>| #[trigger] g.by_id.contains_key(k) ==> h.by_id.contains_key(k)
}

proof fn lemma_links_grow(g: GraphModel, source: usize, links: Seq<LinkModel>)
    ensures
        grew_from(g.with_links(source, links), g),
    decreases links.len(),
{
    if links.len() > 0 {
        lemma_links_grow(g, source, links.drop_last());
    }
}

proof fn lemma_all_links_grow(g: GraphModel, docs: Seq<DocumentModel>)
    requires
        forall|i: int| 0 <= i < docs.len() ==> g.by_id.contains_key((#[trigger] docs[i]).title),
    ensures
        grew_from(g.with_all_links(docs), g),
        g.with_all_links(docs).ends.len() == g.ends.len() + crate::diagnostics::link_count(docs),
    decreases docs.len(),
{
    if docs.len() > 0 {
        let rest = docs.drop_last();
        assert forall|i: int| 0 <= i < rest.len() implies g.by_id.contains_key(
            (#[trigger] rest[i]).title,
        ) by {
            assert(rest[i] == docs[i]);
        }
        lemma_all_links_grow(g, rest);
        let before = g.with_all_links(rest);
        assert(g.by_id.contains_key(docs[docs.len() - 1].title));
        let source = before.by_id[docs.last().title];
        lemma_links_grow(before, source, docs.last().links);
        lemma_with_links_size(before, source, docs.last().links);
        let h = before.with_links(source, docs.last().links);
        assert forall|i: int| 0 <= i < g.nodes.len() implies #[trigger] h.nodes[i]
            == g.nodes[i] by {
            assert(before.nodes[i] == g.nodes[i]);
        }
        assert forall|i: int| g.nodes.len() <= i < h.nodes.len() implies (
        #[trigger] h.nodes[i]).node_type == NodeType::Dangling by {
            if i < before.nodes.len() {
                assert(h.nodes[i] == before.nodes[i]);
            }
        }
    }
}

proof fn lemma_documents_first(docs: Seq<DocumentModel>)
    ensures
        ({
            let g = empty_graph().with_documents(docs);
            &&& g.nodes.len() == docs.len()
            &&& g.ends.len() == 0
            &&& forall|i: int|
                0 <= i < docs.len() ==> #[trigger] g.nodes[i] == document_node(docs[i])
            &&& forall|i: int|
                0 <= i < docs.len() ==> g.by_id.contains_key((#[trigger] docs[i]).title)
        }),
    decreases docs.len(),
{
    if docs.len() > 0 {
        let rest = docs.drop_last();
        lemma_documents_first(rest);
        let g = empty_graph().with_documents(docs);
        assert forall|i: int| 0 <= i < docs.len() implies #[trigger] g.nodes[i] == document_node(
            docs[i],
        ) by {
            if i < rest.len() {
                assert(rest[i] == docs[i]);
            }
        }
        assert forall|i: int| 0 <= i < docs.len() implies g.by_id.contains_key(
            (#[trigger] docs[i]).title,
        ) by {
            if i < rest.len() {
                assert(rest[i] == docs[i]);
            }
        }
    }
}

/// The notes are the first nodes, in their order; every further node dangles.
/// Each link of each note is one edge.
pub proof fn graph_mirrors_notes(docs: Seq<DocumentModel>)
    ensures
        graph_of(docs).nodes.len() >= docs.len(),
        forall|i: int|
            0 <= i < docs.len() ==> #[trigger] graph_of(docs).nodes[i] == document_node(docs[i]),
        forall|i: int|
            docs.len() <= i < graph_of(docs).nodes.len() ==> (#[trigger] graph_of(
                docs,
            ).nodes[i]).node_type == NodeType::Dangling,
        graph_of(docs).ends.len() == crate::diagnostics::link_count(docs),
{
    lemma_documents_first(docs);
    let g = empty_graph().with_documents(docs);
    lemma_all_links_grow(g, docs);
    assert forall|i: int| 0 <= i < docs.len() implies #[trigger] graph_of(docs).nodes[i]
        == document_node(docs[i]) by {
        assert(g.nodes[i] == document_node(docs[i]));
    }
}

/// Every orphan is a note that no link leads to or from, and every such note is
/// an orphan.
pub proof fn orphans_are_the_unlinked_notes(g: GraphModel, note: NoteModel)
    ensures
        orphan_nodes(g, g.nodes.len() as int).contains(note) <==> exists|i: int|
            0 <= i < g.nodes.len() && #[trigger] g.nodes[i] == note && note.node_type
                == NodeType::Document && g.in_degree(i) == 0 && g.out_degree(i) == 0,
{
    lemma_orphans(g, g.nodes.len() as int, note);
}

proof fn lemma_orphans(g: GraphModel, n: int, note: NoteModel)
    requires
        0 <= n <= g.nodes.len(),
    ensures
        orphan_nodes(g, n).contains(note) <==> exists|i: int|
            0 <= i < n && #[trigger] g.nodes[i] == note && note.node_type == NodeType::Document
                && g.in_degree(i) == 0 && g.out_degree(i) == 0,
    decreases n,
{
    if n > 0 {
        lemma_orphans(g, n - 1, note);
        let before = orphan_nodes(g, n - 1);
        let all = orphan_nodes(g, n);
        if all.contains(note) && !before.contains(note) {
            let k = choose|k: int| 0 <= k < all.len() && all[k] == note;
            if k < before.len() {
                assert(before[k] == note);
            }
            assert(g.nodes[n - 1] == note);
        }
        if before.contains(note) {
            let k = choose|k: int| 0 <= k < before.len() && before[k] == note;
            assert(all[k] == note);
        }
        if all.len() > before.len() {
            assert(all[before.len() as int] == g.nodes[n - 1]);
        }
    }
}

/// Wanted pages come with the number of references falling.
pub proof fn wanted_pages_fall(g: GraphModel)
    ensures
        ({
            let pages = sorted_by(
                dangling_nodes(g, g.nodes.len() as int),
                |a: (Seq<char>, usize), b: (Seq<char>, usize)| more_references(a, b),
            );
            forall|i: int, j: int|
                0 <= i < j < pages.len() ==> (#[trigger] pages[i]).1 >= (#[trigger] pages[j]).1
        }),
{
    let lt = |a: (Seq<char>, usize), b: (Seq<char>, usize)| more_references(a, b);
    let all = dangling_nodes(g, g.nodes.len() as int);
    crate::sorting::sorted_is_in_order(all, lt);
    let pages = sorted_by(all, lt);
    assert forall|i: int, j: int| 0 <= i < j < pages.len() implies (#[trigger] pages[i]).1 >= (
    #[trigger] pages[j]).1 by {
        assert(!lt(pages[j], pages[i]));
    }
}

// ---------------------------------------------------------------------------
// What links become
// ---------------------------------------------------------------------------

/// Whether a note has this alias, in lower case.
pub open spec fn has_alias(doc: DocumentModel, low: Seq<char>) -> bool {
    exists|a: int|
        0 <= a < doc.frontmatter.aliases.len() && lowercase(
            #[trigger] doc.frontmatter.aliases[a],
        ) == low
}

/// Whether an edge says what a link says.
pub open spec fn tells_link(e: EdgeModel, link: LinkModel) -> bool {
    &&& link.link_type == LinkType::Embed ==> e.edge_type == EdgeType::Embed && e.weight == 20
    &&& link.link_type == LinkType::Wikilink ==> e.edge_type == EdgeType::Wikilink && e.weight == 10
    &&& link.link_type == LinkType::Markdown ==> e.edge_type == EdgeType::Markdown && e.weight == 8
    &&& e.heading == link.target_heading
    &&& e.block == link.target_block
    &&& e.alias == link.alias
    &&& e.line_number == link.line_number
    &&& e.context_snippet == link.context_snippet
}

/// Whether a node is what a link's target names: a node with that title, case aside, and
/// where there is none, a note with that alias.
pub open spec fn is_named(g: GraphModel, docs: Seq<DocumentModel>, n: int, target: Seq<char>) -> bool {
    &&& 0 <= n < g.nodes.len()
    &&& lowercase(g.nodes[n].title) == lowercase(target) || (n < docs.len() && has_alias(
        docs[n],
        lowercase(target),
    ))
    &&& (exists|i: int|
        0 <= i < docs.len() && lowercase((#[trigger] docs[i]).title) == lowercase(target))
        ==> lowercase(g.nodes[n].title) == lowercase(target)
}

/// Whether an edge is that of a link of a note: it leads from the note to what the
/// target names and says what the link says.
pub open spec fn is_edge_of(
    g: GraphModel,
    docs: Seq<DocumentModel>,
    e: int,
    doc: DocumentModel,
    link: LinkModel,
) -> bool {
    &&& 0 <= e < g.ends.len()
    &&& e < g.edges.len()
    &&& g.ends[e].0 < docs.len()
    &&& docs[g.ends[e].0 as int].title == doc.title
    &&& is_named(g, docs, g.ends[e].1 as int, link.target_note)
    &&& tells_link(g.edges[e], link)
}

/// Names lead to what has them.
#[verifier::opaque]
spec fn names_hold(g: GraphModel, docs: Seq<DocumentModel>, n: int) -> bool {
    &&& g.nodes.len() >= n
    &&& g.nodes.len() <= GRAPH_LIMIT
    &&& g.edges.len() == g.ends.len()
    &&& forall|k: Seq<char>| #[trigger]
        g.by_title.contains_key(k) ==> g.by_title[k] < g.nodes.len() && lowercase(
            g.nodes[g.by_title[k] as int].title,
        ) == k
    &&& forall|k: Seq<char>| #[trigger]
        g.by_id.contains_key(k) ==> g.by_id[k] < g.nodes.len() && g.nodes[g.by_id[k] as int].title == k
    &&& forall|k: Seq<char>| #[trigger]
        g.by_alias.contains_key(k) ==> g.by_alias[k] < n && has_alias(docs[g.by_alias[k] as int], k)
    &&& forall|i: int|
        0 <= i < n ==> g.by_id.contains_key((#[trigger] docs[i]).title)
            && g.by_id[docs[i].title] < n && g.by_title.contains_key(lowercase(docs[i].title))
            && g.nodes[i].title == docs[i].title
}

proof fn lemma_alias_names(g: GraphModel, doc: DocumentModel, names: Seq<Seq<char>>, n: usize, m: int)
    requires
        0 <= m <= doc.frontmatter.aliases.len(),
        names == doc.frontmatter.aliases.take(m),
    ensures
        forall|k: Seq<char>| #[trigger]
            g.with_aliases(names, n).by_alias.contains_key(k) ==> (g.with_aliases(
                names,
                n,
            ).by_alias[k] == n && has_alias(doc, k)) || (g.by_alias.contains_key(k)
                && g.with_aliases(names, n).by_alias[k] == g.by_alias[k]),
    decreases m,
{
    if m > 0 {
        assert(names.drop_last() =~= doc.frontmatter.aliases.take(m - 1));
        lemma_alias_names(g, doc, names.drop_last(), n, m - 1);
        assert(doc.frontmatter.aliases[m - 1] == names.last());
        assert(has_alias(doc, lowercase(names.last())));
        let before = g.with_aliases(names.drop_last(), n).by_alias;
        let all = g.with_aliases(names, n).by_alias;
        assert(all == before.insert(lowercase(names.last()), n));
        assert forall|k: Seq<char>| #[trigger] all.contains_key(k) implies (all[k] == n && has_alias(
            doc,
            k,
        )) || (g.by_alias.contains_key(k) && all[k] == g.by_alias[k]) by {
            if k != lowercase(names.last()) {
                assert(before.contains_key(k));
            }
        }
    }
}

proof fn lemma_document_names(docs: Seq<DocumentModel>, n: int)
    requires
        0 <= n <= docs.len(),
        docs.len() <= GRAPH_LIMIT,
    ensures
        names_hold(empty_graph().with_documents(docs.take(n)), docs, n),
        empty_graph().with_documents(docs.take(n)).nodes.len() == n,
        empty_graph().with_documents(docs.take(n)).ends.len() == 0,
    decreases n,
{
    reveal(names_hold);
    if n > 0 {
        lemma_document_names(docs, n - 1);
        assert(docs.take(n).drop_last() =~= docs.take(n - 1));
        assert(docs.take(n).last() == docs[n - 1]);
        let g = empty_graph().with_documents(docs.take(n - 1));
        let doc = docs[n - 1];
        let r = g.with_document(doc);
        let aliases = doc.frontmatter.aliases;
        assert(aliases.take(aliases.len() as int) =~= aliases);
        lemma_alias_names(g, doc, aliases, (n - 1) as usize, aliases.len() as int);
        assert(r.nodes.len() == n);
        assert forall|k: Seq<char>| #[trigger] r.by_title.contains_key(k) implies r.by_title[k]
            < r.nodes.len() && lowercase(r.nodes[r.by_title[k] as int].title) == k by {
            if k != lowercase(doc.title) {
                assert(g.by_title.contains_key(k));
            }
        }
        assert forall|k: Seq<char>| #[trigger] r.by_id.contains_key(k) implies r.by_id[k]
            < r.nodes.len() && r.nodes[r.by_id[k] as int].title == k by {
            if k != doc.title {
                assert(g.by_id.contains_key(k));
            }
        }
        assert forall|k: Seq<char>| #[trigger] r.by_alias.contains_key(k) implies r.by_alias[k] < n
            && has_alias(docs[r.by_alias[k] as int], k) by {
            assert(g.with_aliases(aliases, (n - 1) as usize).by_alias.contains_key(k));
        }
        assert forall|i: int| 0 <= i < n implies r.by_id.contains_key((#[trigger] docs[i]).title)
            && r.by_id[docs[i].title] < n && r.by_title.contains_key(lowercase(docs[i].title))
            && r.nodes[i].title == docs[i].title by {}
    } else {
        assert(docs.take(0).len() == 0);
    }
}

proof fn lemma_link_named(g: GraphModel, docs: Seq<DocumentModel>, source: usize, link: LinkModel)
    requires
        names_hold(g, docs, docs.len() as int),
        source < docs.len(),
        g.with_link(source, link).nodes.len() <= GRAPH_LIMIT,
    ensures
        names_hold(g.with_link(source, link), docs, docs.len() as int),
        g.with_link(source, link).ends.len() == g.ends.len() + 1,
        is_edge_of(
            g.with_link(source, link),
            docs,
            g.ends.len() as int,
            docs[source as int],
            link,
        ),
{
    reveal(names_hold);
    let h = g.with_link(source, link);
    let name = link.target_note;
    let t = g.target_node(name);
    assert(h.ends[g.ends.len() as int] == (source, t));
    assert(h.edges[g.ends.len() as int] == link_edge(link));
    if g.target(name) is None {
        assert(h.nodes[g.nodes.len() as int].title == name);
        assert forall|k: Seq<char>| #[trigger] h.by_title.contains_key(k) implies h.by_title[k]
            < h.nodes.len() && lowercase(h.nodes[h.by_title[k] as int].title) == k by {
            if k != lowercase(name) {
                assert(g.by_title.contains_key(k));
            }
        }
        assert forall|k: Seq<char>| #[trigger] h.by_id.contains_key(k) implies h.by_id[k]
            < h.nodes.len() && h.nodes[h.by_id[k] as int].title == k by {
            if k != name {
                assert(g.by_id.contains_key(k));
            }
        }
        assert forall|i: int| 0 <= i < docs.len() implies h.by_id.contains_key(
            (#[trigger] docs[i]).title,
        ) && h.by_id[docs[i].title] < docs.len() && h.by_title.contains_key(
            lowercase(docs[i].title),
        ) && h.nodes[i].title == docs[i].title by {
            assert(g.by_id.contains_key(docs[i].title));
        }
    }
    assert(is_named(h, docs, t as int, name));
}

proof fn lemma_still_edge(
    g: GraphModel,
    h: GraphModel,
    docs: Seq<DocumentModel>,
    e: int,
    doc: DocumentModel,
    link: LinkModel,
)
    requires
        is_edge_of(g, docs, e, doc, link),
        extends_graph(h, g),
    ensures
        is_edge_of(h, docs, e, doc, link),
{
    assert(h.ends[e] == g.ends[e]);
    assert(h.edges[e] == g.edges[e]);
    assert(h.nodes[g.ends[e].1 as int] == g.nodes[g.ends[e].1 as int]);
}

/// Whether `h` has all that `g` has, in its place.
spec fn extends_graph(h: GraphModel, g: GraphModel) -> bool {
    &&& h.nodes.len() >= g.nodes.len()
    &&& h.edges.len() >= g.edges.len()
    &&& h.ends.len() >= g.ends.len()
    &&& forall|i: int| 0 <= i < g.nodes.len() ==> h.nodes[i] == #[trigger] g.nodes[i]
    &&& forall|i: int| 0 <= i < g.edges.len() ==> h.edges[i] == #[trigger] g.edges[i]
    &&& forall|i: int| 0 <= i < g.ends.len() ==> h.ends[i] == #[trigger] g.ends[i]
}

proof fn lemma_links_named(
    g: GraphModel,
    docs: Seq<DocumentModel>,
    source: usize,
    links: Seq<LinkModel>,
    n: int,
)
    requires
        names_hold(g, docs, docs.len() as int),
        source < docs.len(),
        0 <= n <= links.len(),
        g.with_links(source, links.take(n)).nodes.len() <= GRAPH_LIMIT,
    ensures
        names_hold(g.with_links(source, links.take(n)), docs, docs.len() as int),
        extends_graph(g.with_links(source, links.take(n)), g),
        g.with_links(source, links.take(n)).ends.len() == g.ends.len() + n,
        forall|l: int|
            0 <= l < n ==> is_edge_of(
                g.with_links(source, links.take(n)),
                docs,
                g.ends.len() + l,
                docs[source as int],
                #[trigger] links[l],
            ),
    decreases n,
{
    if n > 0 {
        let links1 = links.take(n);
        assert(links1.drop_last() =~= links.take(n - 1));
        assert(links1.last() == links[n - 1]);
        let before = g.with_links(source, links.take(n - 1));
        let h = g.with_links(source, links1);
        lemma_links_named(g, docs, source, links, n - 1);
        lemma_link_named(before, docs, source, links[n - 1]);
        assert(extends_graph(h, before)) by {
            reveal(names_hold);
        }
        assert forall|l: int| 0 <= l < n implies is_edge_of(
            h,
            docs,
            g.ends.len() + l,
            docs[source as int],
            #[trigger] links[l],
        ) by {
            if l < n - 1 {
                lemma_still_edge(before, h, docs, g.ends.len() + l, docs[source as int], links[l]);
            }
        }
    } else {
        assert(links.take(0).len() == 0);
    }
}

proof fn lemma_all_links_named(docs: Seq<DocumentModel>, n: int)
    requires
        0 <= n <= docs.len(),
        fits(docs),
    ensures
        ({
            let g = empty_graph().with_documents(docs).with_all_links(docs.take(n));
            &&& names_hold(g, docs, docs.len() as int)
            &&& g.ends.len() == crate::diagnostics::link_count(docs.take(n))
            &&& forall|d: int, l: int|
                0 <= d < n && 0 <= l < docs[d].links.len() ==> is_edge_of(
                    g,
                    docs,
                    crate::diagnostics::link_count(docs.take(d)) + l,
                    docs[d],
                    #[trigger] docs[d].links[l],
                )
        }),
    decreases n,
{
    let base = empty_graph().with_documents(docs);
    let g = base.with_all_links(docs.take(n));
    lemma_all_links_prefix(base, docs, n);
    assert(docs.take(docs.len() as int) =~= docs);
    lemma_with_documents_size(empty_graph(), docs);
    lemma_all_links_prefix(base, docs, 0);
    assert(docs.take(0).len() == 0);
    if n == 0 {
        lemma_document_names(docs, docs.len() as int);
    } else {
        assert(docs.take(n).drop_last() =~= docs.take(n - 1));
        assert(docs.take(n).last() == docs[n - 1]);
        lemma_all_links_named(docs, n - 1);
        let before = base.with_all_links(docs.take(n - 1));
        let doc = docs[n - 1];
        assert(before.by_id.contains_key(doc.title) && before.by_id[doc.title] < docs.len()
            && docs[before.by_id[doc.title] as int].title == doc.title) by {
            reveal(names_hold);
            assert(before.by_id.contains_key(docs[n - 1].title));
            let s = before.by_id[doc.title] as int;
            assert(before.nodes[s].title == doc.title);
            assert(before.nodes[s].title == docs[s].title);
        }
        let source = before.by_id[doc.title];
        assert(doc.links.take(doc.links.len() as int) =~= doc.links);
        lemma_links_named(before, docs, source, doc.links, doc.links.len() as int);
        assert forall|d: int, l: int| 0 <= d < n && 0 <= l < docs[d].links.len() implies is_edge_of(
            g,
            docs,
            crate::diagnostics::link_count(docs.take(d)) + l,
            docs[d],
            #[trigger] docs[d].links[l],
        ) by {
            let e = crate::diagnostics::link_count(docs.take(d)) + l;
            if d < n - 1 {
                assert(is_edge_of(before, docs, e, docs[d], docs[d].links[l]));
                lemma_still_edge(before, g, docs, e, docs[d], docs[d].links[l]);
            } else {
                assert(is_edge_of(g, docs, e, docs[source as int], doc.links[l]));
            }
        }
    }
}

/// Each link of each note is an edge of the graph, note by note and link by link. It
/// leads from a note with the note's title to what the target names: the node with that
/// title, case aside, before a note with that alias. It says what the link says, and
/// weighs by the kind of the link.
pub proof fn each_link_is_an_edge(docs: Seq<DocumentModel>, d: int, l: int)
    requires
        fits(docs),
        0 <= d < docs.len(),
        0 <= l < docs[d].links.len(),
    ensures
        is_edge_of(
            graph_of(docs),
            docs,
            crate::diagnostics::link_count(docs.take(d)) + l,
            docs[d],
            docs[d].links[l],
        ),
{
    lemma_all_links_named(docs, docs.len() as int);
    assert(docs.take(docs.len() as int) =~= docs);
}

/// The edges at a node: those that enter it are those of all edges that lead to it, and
/// those that leave it those that lead from it, the latest first.
pub proof fn edges_at_a_node(ends: Seq<(usize, usize)>, n: int)
    requires
        ends.len() <= usize::MAX,
    ensures
        forall|e: int|
            0 <= e < ends.len() ==> (#[trigger] ends[e].1 == n <==> ins(ends, n).contains(
                (e as usize, ends[e].0),
            )),
        forall|e: int|
            0 <= e < ends.len() ==> (#[trigger] ends[e].0 == n <==> outs(ends, n).contains(
                (e as usize, ends[e].1),
            )),
        forall|k: int|
            0 <= k < ins(ends, n).len() ==> (#[trigger] ins(ends, n)[k]).0 < ends.len()
                && ends[ins(ends, n)[k].0 as int] == (ins(ends, n)[k].1, n as usize) && 0 <= n
                <= usize::MAX,
        forall|k: int|
            0 <= k < outs(ends, n).len() ==> (#[trigger] outs(ends, n)[k]).0 < ends.len()
                && ends[outs(ends, n)[k].0 as int] == (n as usize, outs(ends, n)[k].1) && 0 <= n
                <= usize::MAX,
        forall|i: int, j: int|
            0 <= i < j < ins(ends, n).len() ==> (#[trigger] ins(ends, n)[i]).0 > (#[trigger] ins(
                ends,
                n,
            )[j]).0,
        forall|i: int, j: int|
            0 <= i < j < outs(ends, n).len() ==> (#[trigger] outs(ends, n)[i]).0 > (
            #[trigger] outs(ends, n)[j]).0,
    decreases ends.len(),
{
    if ends.len() > 0 {
        let rest = ends.drop_last();
        let last = ((ends.len() - 1) as usize, ends.last().0);
        let first = ((ends.len() - 1) as usize, ends.last().1);
        edges_at_a_node(rest, n);
        let (i0, o0) = (ins(rest, n), outs(rest, n));
        let (i1, o1) = (ins(ends, n), outs(ends, n));
        if ends.last().1 == n {
            assert(i1[0] == last);
            assert forall|k: int| 0 <= k < i0.len() implies i1[k + 1] == #[trigger] i0[k] by {}
            assert forall|k: int| 1 <= k < i1.len() implies #[trigger] i1[k] == i0[k - 1] by {}
        }
        if ends.last().0 == n {
            assert(o1[0] == first);
            assert forall|k: int| 0 <= k < o0.len() implies o1[k + 1] == #[trigger] o0[k] by {}
            assert forall|k: int| 1 <= k < o1.len() implies #[trigger] o1[k] == o0[k - 1] by {}
        }
        assert forall|e: int| 0 <= e < ends.len() implies (#[trigger] ends[e].1 == n
            <==> i1.contains((e as usize, ends[e].0))) by {
            let x = (e as usize, ends[e].0);
            if e < rest.len() {
                assert(rest[e] == ends[e]);
                if ends[e].1 == n {
                    assert(i0.contains(x));
                    let k = choose|k: int| 0 <= k < i0.len() && i0[k] == x;
                    if ends.last().1 == n {
                        assert(i1[k + 1] == x);
                    }
                }
                if i1.contains(x) {
                    let k = choose|k: int| 0 <= k < i1.len() && i1[k] == x;
                    if ends.last().1 == n {
                        assert(k > 0);
                        assert(i0[k - 1] == x);
                    }
                    assert(i0.contains(x));
                }
            } else {
                if i1.contains(x) && ends.last().1 != n {
                    let k = choose|k: int| 0 <= k < i0.len() && i0[k] == x;
                    assert(i0[k].0 < rest.len());
                }
            }
        }
        assert forall|e: int| 0 <= e < ends.len() implies (#[trigger] ends[e].0 == n
            <==> o1.contains((e as usize, ends[e].1))) by {
            let x = (e as usize, ends[e].1);
            if e < rest.len() {
                assert(rest[e] == ends[e]);
                if ends[e].0 == n {
                    assert(o0.contains(x));
                    let k = choose|k: int| 0 <= k < o0.len() && o0[k] == x;
                    if ends.last().0 == n {
                        assert(o1[k + 1] == x);
                    }
                }
                if o1.contains(x) {
                    let k = choose|k: int| 0 <= k < o1.len() && o1[k] == x;
                    if ends.last().0 == n {
                        assert(k > 0);
                        assert(o0[k - 1] == x);
                    }
                    assert(o0.contains(x));
                }
            } else {
                if o1.contains(x) && ends.last().0 != n {
                    let k = choose|k: int| 0 <= k < o0.len() && o0[k] == x;
                    assert(o0[k].0 < rest.len());
                }
            }
        }
    }
}

/// The wanted pages are the nodes without a note, each with the number of links that
/// lead to it; none is left out.
pub proof fn wanted_pages_are_the_missing_notes(g: GraphModel, page: (Seq<char>, usize))
    ensures
        sorted_by(
            dangling_nodes(g, g.nodes.len() as int),
            |a: (Seq<char>, usize), b: (Seq<char>, usize)| more_references(a, b),
        ).contains(page) <==> exists|i: int|
            0 <= i < g.nodes.len() && (#[trigger] g.nodes[i]).node_type == NodeType::Dangling
                && g.nodes[i].title == page.0 && ins(g.ends, i).len() as usize == page.1,
{
    let lt = |a: (Seq<char>, usize), b: (Seq<char>, usize)| more_references(a, b);
    let all = dangling_nodes(g, g.nodes.len() as int);
    lemma_dangling(g, g.nodes.len() as int, page);
    crate::sorting::lemma_sorted_members(all, lt);
    if all.contains(page) {
        let k = choose|k: int| 0 <= k < all.len() && all[k] == page;
        assert(sorted_by(all, lt).contains(all[k]));
    }
    if sorted_by(all, lt).contains(page) {
        let k = choose|k: int| 0 <= k < sorted_by(all, lt).len() && sorted_by(all, lt)[k] == page;
        assert(all.contains(sorted_by(all, lt)[k]));
    }
}

proof fn lemma_dangling(g: GraphModel, n: int, page: (Seq<char>, usize))
    requires
        0 <= n <= g.nodes.len(),
    ensures
        dangling_nodes(g, n).contains(page) <==> exists|i: int|
            0 <= i < n && (#[trigger] g.nodes[i]).node_type == NodeType::Dangling
                && g.nodes[i].title == page.0 && ins(g.ends, i).len() as usize == page.1,
    decreases n,
{
    if n > 0 {
        lemma_dangling(g, n - 1, page);
        let before = dangling_nodes(g, n - 1);
        let all = dangling_nodes(g, n);
        if all.contains(page) && !before.contains(page) {
            let k = choose|k: int| 0 <= k < all.len() && all[k] == page;
            if k < before.len() {
                assert(before[k] == page);
            }
            assert(g.nodes[n - 1].title == page.0);
        }
        if before.contains(page) {
            let k = choose|k: int| 0 <= k < before.len() && before[k] == page;
            assert(all[k] == page);
        }
        if g.nodes[n - 1].node_type == NodeType::Dangling {
            assert(all[before.len() as int].0 == g.nodes[n - 1].title);
        }
    }
}

/// The backlinks of a node are one for each edge that leads to it, the latest first: the
/// node that the edge comes from, and the edge.
pub proof fn backlinks_are_the_edges_to_a_node(g: GraphModel, n: int)
    requires
        g.ends.len() <= usize::MAX,
    ensures
        backlinks_from(g, ins(g.ends, n)).len() == ins(g.ends, n).len(),
        forall|k: int|
            0 <= k < backlinks_from(g, ins(g.ends, n)).len() ==> {
                let e = ins(g.ends, n)[k].0 as int;
                &&& e < g.ends.len()
                &&& g.ends[e].1 == n
                &&& (#[trigger] backlinks_from(g, ins(g.ends, n))[k]).0 == g.nodes[g.ends[e].0 as int]
                &&& backlinks_from(g, ins(g.ends, n))[k].1 == g.edges[e]
            },
        forall|e: int|
            0 <= e < g.ends.len() && #[trigger] g.ends[e].1 == n ==> backlinks_from(
                g,
                ins(g.ends, n),
            ).contains((g.nodes[g.ends[e].0 as int], g.edges[e])),
{
    edges_at_a_node(g.ends, n);
    let edges = ins(g.ends, n);
    let r = backlinks_from(g, edges);
    assert forall|e: int| 0 <= e < g.ends.len() && #[trigger] g.ends[e].1 == n implies r.contains(
        (g.nodes[g.ends[e].0 as int], g.edges[e]),
    ) by {
        assert(edges.contains((e as usize, g.ends[e].0)));
        let k = choose|k: int| 0 <= k < edges.len() && edges[k] == (e as usize, g.ends[e].0);
        assert(r[k] == (g.nodes[g.ends[e].0 as int], g.edges[e]));
    }
}

/// A shortest way goes along links in their direction, from the one note to the other,
/// and no such way has fewer steps.
pub proof fn shortest_way_follows_links(
    m: crate::wiring::WiringModel,
    p: Seq<int>,
    a: int,
    b: int,
    q: Seq<int>,
)
    requires
        m.is_shortest(p, a, b),
    ensures
        p.len() > 0,
        p[0] == a,
        p[p.len() - 1] == b,
        forall|i: int|
            0 <= i < p.len() - 1 ==> exists|e: int|
                0 <= e < m.ends.len() && (#[trigger] m.ends[e]).0 == p[i] && m.ends[e].1
                    == #[trigger] p[i + 1],
        q.len() > 0 && q[0] == a && q[q.len() - 1] == b && (forall|i: int|
            0 <= i < q.len() ==> 0 <= #[trigger] q[i] < m.nodes) && (forall|i: int|
            0 <= i < q.len() - 1 ==> exists|e: int|
                0 <= e < m.ends.len() && (#[trigger] m.ends[e]).0 == #[trigger] q[i] && m.ends[e].1
                    == q[i + 1]) ==> p.len() <= q.len(),
{
    assert forall|i: int| 0 <= i < p.len() - 1 implies exists|e: int|
        0 <= e < m.ends.len() && (#[trigger] m.ends[e]).0 == p[i] && m.ends[e].1 == #[trigger] p[i
            + 1] by {
        assert(m.steps(false, p[i], p[i + 1]));
    }
    if q.len() > 0 && q[0] == a && q[q.len() - 1] == b && (forall|i: int|
        0 <= i < q.len() ==> 0 <= #[trigger] q[i] < m.nodes) && (forall|i: int|
        0 <= i < q.len() - 1 ==> exists|e: int|
            0 <= e < m.ends.len() && (#[trigger] m.ends[e]).0 == #[trigger] q[i] && m.ends[e].1
                == q[i + 1]) {
        assert forall|i: int| 0 <= i < q.len() - 1 implies m.steps(
            false,
            #[trigger] q[i],
            q[i + 1],
        ) by {
            assert(m.has_edge(q[i], q[i + 1]));
        }
        assert(m.leads(false, q, a, b));
    }
}

/// The viewer shows every node and every edge as it is: with its names and its rank, with
/// how many links lead to it and from it, and in the group of its first tag.
pub proof fn viewer_shows_the_graph(g: GraphModel, i: int, e: int)
    requires
        0 <= i < g.nodes.len() <= GRAPH_LIMIT,
        g.ends.len() <= GRAPH_LIMIT,
        0 <= e < g.ends.len(),
    ensures
        d3_node(g, i).id == g.nodes[i].id,
        d3_node(g, i).title == g.nodes[i].title,
        d3_node(g, i).pagerank == g.nodes[i].pagerank,
        d3_node(g, i).is_dangling <==> g.nodes[i].node_type == NodeType::Dangling,
        g.nodes[i].tags.len() > 0 ==> d3_node(g, i).group == g.nodes[i].tags[0],
        g.nodes[i].tags.len() == 0 && d3_node(g, i).is_dangling ==> d3_node(g, i).group
            == "dangling"@,
        g.nodes[i].tags.len() == 0 && !d3_node(g, i).is_dangling ==> d3_node(g, i).group
            == "default"@,
        d3_node(g, i).in_degree == ins(g.ends, i).len(),
        d3_node(g, i).out_degree == outs(g.ends, i).len(),
        d3_link(g, e).source == g.nodes[g.ends[e].0 as int].id,
        d3_link(g, e).target == g.nodes[g.ends[e].1 as int].id,
        d3_link(g, e).weight == g.edges[e].weight,
        g.edges[e].edge_type == EdgeType::Wikilink ==> d3_link(g, e).edge_type == "wikilink"@,
        g.edges[e].edge_type == EdgeType::Embed ==> d3_link(g, e).edge_type == "embed"@,
        g.edges[e].edge_type == EdgeType::Markdown ==> d3_link(g, e).edge_type == "markdown"@,
        g.edges[e].edge_type == EdgeType::TaggedWith ==> d3_link(g, e).edge_type == "tagged_with"@,
{
    lemma_degree_bound(g.ends, i);
}

proof fn lemma_degree_bound(ends: Seq<(usize, usize)>, n: int)
    ensures
        ins(ends, n).len() <= ends.len(),
        outs(ends, n).len() <= ends.len(),
    decreases ends.len(),
{
    if ends.len() > 0 {
        lemma_degree_bound(ends.drop_last(), n);
    }
}

} // verus!
