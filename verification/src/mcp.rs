//! The tool server: which requests there are, what each tool is called with, and
//! what is answered when a request cannot be met.

use crate::text::{group_views, holds_str, same, views};
use vstd::prelude::*;

verus! {

/// What a request asks for.
#[derive(Debug, Clone, Copy, PartialEq, Eq, Structural)]
pub enum McpMethod {
    Initialize,
    /// A notification, which has no reply.
    Initialized,
    Ping,
    ListTools,
    CallTool,
    Unknown,
}

/// What a method name asks for.
pub open spec fn method_of(name: Seq<char>) -> McpMethod {
    if name == "initialize"@ {
        McpMethod::Initialize
    } else if name == "notifications/initialized"@ {
        McpMethod::Initialized
    } else if name == "ping"@ {
        McpMethod::Ping
    } else if name == "tools/list"@ {
        McpMethod::ListTools
    } else if name == "tools/call"@ {
        McpMethod::CallTool
    } else {
        McpMethod::Unknown
    }
}

/// What a method name asks for.
pub fn parse_method(name: &str) -> (r: McpMethod)
    ensures
        r == method_of(name@),
{
    if same(name, "initialize") {
        McpMethod::Initialize
    } else if same(name, "notifications/initialized") {
        McpMethod::Initialized
    } else if same(name, "ping") {
        McpMethod::Ping
    } else if same(name, "tools/list") {
        McpMethod::ListTools
    } else if same(name, "tools/call") {
        McpMethod::CallTool
    } else {
        McpMethod::Unknown
    }
}

/// Whether a request is answered: one without an id is a notification, which has no
/// reply, and so is the client's word that it has started.
pub fn is_answered(method: McpMethod, has_id: bool) -> (r: bool)
    ensures
        r == (has_id && method != McpMethod::Initialized),
{
    match method {
        McpMethod::Initialized => false,
        _ => has_id,
    }
}

/// An error as a reply carries it.
#[derive(Debug)]
pub struct RpcError {
    pub code: i32,
    pub message: String,
}

/// The line was no request.
pub fn parse_error(reason: &str) -> (r: RpcError)
    ensures
        r.code == -32700,
        r.message@ == "Parse error: "@ + reason@,
{
    let mut message = "Parse error: ".to_owned();
    message.append(reason);
    RpcError { code: -32700, message }
}

/// There is no such method.
pub fn method_not_found(name: &str) -> (r: RpcError)
    ensures
        r.code == -32601,
        r.message@ == "Method not found: "@ + name@,
{
    let mut message = "Method not found: ".to_owned();
    message.append(name);
    RpcError { code: -32601, message }
}

/// A tool could not do its work.
pub fn tool_failed(reason: String) -> (r: RpcError)
    ensures
        r.code == -32000,
        r.message@ == reason@,
{
    RpcError { code: -32000, message: reason }
}

/// What an index without a note says.
pub fn note_not_found(title: &str) -> (r: String)
    ensures
        r@ == "Note '"@ + title@ + "' not found in vault index"@,
{
    let mut r = "Note '".to_owned();
    r.append(title);
    r.append("' not found in vault index");
    r
}

// ---------------------------------------------------------------------------
// The tools
// ---------------------------------------------------------------------------

/// The tools that can be called.
#[derive(Debug, Clone, Copy, PartialEq, Eq, Structural)]
pub enum Tool {
    Search,
    GetNote,
    Backlinks,
    GraphNeighbors,
    UnresolvedLinks,
    Stats,
    GraphRag,
    GenerateMoc,
}

/// An argument of a tool.
#[derive(Debug, Clone, Copy)]
pub struct ToolParameter {
    pub name: &'static str,
    pub kind: &'static str,
    pub description: &'static str,
}

/// What a `ToolParameter` says.
pub struct ParameterModel {
    pub name: Seq<char>,
    pub kind: Seq<char>,
    pub description: Seq<char>,
}

impl View for ToolParameter {
    type V = ParameterModel;

    open spec fn view(&self) -> ParameterModel {
        ParameterModel {
            name: self.name@,
            kind: self.kind@,
            description: self.description@,
        }
    }
}

fn parameter(name: &'static str, kind: &'static str, description: &'static str) -> (r: ToolParameter)
    ensures
        r@ == (ParameterModel { name: name@, kind: kind@, description: description@ }),
{
    ToolParameter { name, kind, description }
}

impl Tool {
    /// The name under which the tool is called.
    pub open spec fn called(self) -> Seq<char> {
        match self {
            Tool::Search => "atlaswiki_search"@,
            Tool::GetNote => "atlaswiki_get_note"@,
            Tool::Backlinks => "atlaswiki_backlinks"@,
            Tool::GraphNeighbors => "atlaswiki_graph_neighbors"@,
            Tool::UnresolvedLinks => "atlaswiki_unresolved_links"@,
            Tool::Stats => "atlaswiki_stats"@,
            Tool::GraphRag => "atlaswiki_graph_rag"@,
            Tool::GenerateMoc => "atlaswiki_generate_moc"@,
        }
    }

    /// What the tool does.
    pub open spec fn purpose(self) -> Seq<char> {
        match self {
            Tool::Search => "Perform full-text BM25 and semantic hybrid search across notes and chunks in the AtlasWiki knowledge base."@,
            Tool::GetNote => "Retrieve full markdown content, frontmatter metadata, sections hierarchy, outgoing links, and incoming backlinks for a given note."@,
            Tool::Backlinks => "Get all incoming backlinks referencing a note, including referencing files, line numbers, and context snippets."@,
            Tool::GraphNeighbors => "Retrieve the local subgraph (1-hop or 2-hop connected neighbors and wikilink connections) around a given note."@,
            Tool::UnresolvedLinks => "List all unresolved or dangling wikilinks in the vault sorted by reference frequency (wanted unwritten notes)."@,
            Tool::Stats => "Get comprehensive metrics for the AtlasWiki knowledge vault (notes count, sections, links, chunks, words)."@,
            Tool::GraphRag => "Perform Graph RAG multi-hop connective path and Steiner-tree context extraction between concept notes for LLM reasoning."@,
            Tool::GenerateMoc => "Generate or update an automated Map of Content (MOC) index based on tag taxonomy, PageRank centrality, and backlinks."@,
        }
    }

    /// The argument that the tool cannot do without.
    pub open spec fn needed(self) -> Option<Seq<char>> {
        match self {
            Tool::Search => Some("query"@),
            Tool::GetNote => Some("title"@),
            Tool::Backlinks => Some("title"@),
            Tool::GraphNeighbors => Some("title"@),
            Tool::UnresolvedLinks => None,
            Tool::Stats => None,
            Tool::GraphRag => Some("seeds"@),
            Tool::GenerateMoc => None,
        }
    }

    /// The arguments that the tool takes.
    pub open spec fn takes(self) -> Seq<ParameterModel> {
        match self {
            Tool::Search => seq![
                ParameterModel {
                    name: "query"@,
                    kind: "string"@,
                    description: "The search query, phrase, or keyword."@,
                },
                ParameterModel {
                    name: "limit"@,
                    kind: "integer"@,
                    description: "Maximum number of search results to return (default: 10)."@,
                },
            ],
            Tool::GetNote => seq![
                ParameterModel {
                    name: "title"@,
                    kind: "string"@,
                    description: "The title or relative path of the note to retrieve."@,
                },
            ],
            Tool::Backlinks => seq![
                ParameterModel {
                    name: "title"@,
                    kind: "string"@,
                    description: "The title of the note to inspect incoming references for."@,
                },
            ],
            Tool::GraphNeighbors => seq![
                ParameterModel {
                    name: "title"@,
                    kind: "string"@,
                    description: "The center note title."@,
                },
                ParameterModel {
                    name: "depth"@,
                    kind: "integer"@,
                    description: "Hop distance (1 or 2, default: 1)."@,
                },
            ],
            Tool::UnresolvedLinks => seq![
            ],
            Tool::Stats => seq![
            ],
            Tool::GraphRag => seq![
                ParameterModel {
                    name: "seeds"@,
                    kind: "array"@,
                    description: "List of concept note titles to connect."@,
                },
                ParameterModel {
                    name: "max_hops"@,
                    kind: "integer"@,
                    description: "Maximum path length in hops (default: 3)."@,
                },
            ],
            Tool::GenerateMoc => seq![
                ParameterModel {
                    name: "topic"@,
                    kind: "string"@,
                    description: "Optional topic or tag to generate MOC for. If omitted, generates living vault index."@,
                },
            ],
        }
    }

    /// The name under which the tool is called.
    pub fn name(&self) -> (r: &'static str)
        ensures
            r@ == self.called(),
    {
        match self {
            Tool::Search => "atlaswiki_search",
            Tool::GetNote => "atlaswiki_get_note",
            Tool::Backlinks => "atlaswiki_backlinks",
            Tool::GraphNeighbors => "atlaswiki_graph_neighbors",
            Tool::UnresolvedLinks => "atlaswiki_unresolved_links",
            Tool::Stats => "atlaswiki_stats",
            Tool::GraphRag => "atlaswiki_graph_rag",
            Tool::GenerateMoc => "atlaswiki_generate_moc",
        }
    }

    /// What the tool does.
    pub fn description(&self) -> (r: &'static str)
        ensures
            r@ == self.purpose(),
    {
        match self {
            Tool::Search => "Perform full-text BM25 and semantic hybrid search across notes and chunks in the AtlasWiki knowledge base.",
            Tool::GetNote => "Retrieve full markdown content, frontmatter metadata, sections hierarchy, outgoing links, and incoming backlinks for a given note.",
            Tool::Backlinks => "Get all incoming backlinks referencing a note, including referencing files, line numbers, and context snippets.",
            Tool::GraphNeighbors => "Retrieve the local subgraph (1-hop or 2-hop connected neighbors and wikilink connections) around a given note.",
            Tool::UnresolvedLinks => "List all unresolved or dangling wikilinks in the vault sorted by reference frequency (wanted unwritten notes).",
            Tool::Stats => "Get comprehensive metrics for the AtlasWiki knowledge vault (notes count, sections, links, chunks, words).",
            Tool::GraphRag => "Perform Graph RAG multi-hop connective path and Steiner-tree context extraction between concept notes for LLM reasoning.",
            Tool::GenerateMoc => "Generate or update an automated Map of Content (MOC) index based on tag taxonomy, PageRank centrality, and backlinks.",
        }
    }

    /// The argument that the tool cannot do without.
    pub fn required(&self) -> (r: Option<&'static str>)
        ensures
            match r {
                Some(name) => self.needed() == Some(name@),
                None => self.needed() is None,
            },
    {
        match self {
            Tool::Search => Some("query"),
            Tool::GetNote => Some("title"),
            Tool::Backlinks => Some("title"),
            Tool::GraphNeighbors => Some("title"),
            Tool::UnresolvedLinks => None,
            Tool::Stats => None,
            Tool::GraphRag => Some("seeds"),
            Tool::GenerateMoc => None,
        }
    }

    /// The arguments that the tool takes.
    pub fn parameters(&self) -> (r: Vec<ToolParameter>)
        ensures
            views(r@) == self.takes(),
    {
        broadcast use group_views;

        let mut r: Vec<ToolParameter> = Vec::new();
        match self {
            Tool::Search => {
                r.push(parameter("query", "string", "The search query, phrase, or keyword."));
                r.push(parameter("limit", "integer", "Maximum number of search results to return (default: 10)."));
            },
            Tool::GetNote => {
                r.push(parameter("title", "string", "The title or relative path of the note to retrieve."));
            },
            Tool::Backlinks => {
                r.push(parameter("title", "string", "The title of the note to inspect incoming references for."));
            },
            Tool::GraphNeighbors => {
                r.push(parameter("title", "string", "The center note title."));
                r.push(parameter("depth", "integer", "Hop distance (1 or 2, default: 1)."));
            },
            Tool::UnresolvedLinks => {},
            Tool::Stats => {},
            Tool::GraphRag => {
                r.push(parameter("seeds", "array", "List of concept note titles to connect."));
                r.push(parameter("max_hops", "integer", "Maximum path length in hops (default: 3)."));
            },
            Tool::GenerateMoc => {
                r.push(parameter("topic", "string", "Optional topic or tag to generate MOC for. If omitted, generates living vault index."));
            },
        }
        assert(views(r@) =~= self.takes());
        r
    }
}

/// The tools on offer, in order. The others are served to those who know of them.
pub open spec fn offered() -> Seq<Tool> {
    seq![
        Tool::Search,
        Tool::GetNote,
        Tool::Backlinks,
        Tool::GraphNeighbors,
        Tool::UnresolvedLinks,
        Tool::Stats,
    ]
}

/// The tools on offer, in order.
pub fn list_tools() -> (r: Vec<Tool>)
    ensures
        r@ == offered(),
{
    let r: Vec<Tool> = vec![
        Tool::Search,
        Tool::GetNote,
        Tool::Backlinks,
        Tool::GraphNeighbors,
        Tool::UnresolvedLinks,
        Tool::Stats,
    ];
    assert(r@ =~= offered());
    r
}

/// The tool that a name calls.
pub open spec fn tool_named(name: Seq<char>) -> Option<Tool> {
    if name == Tool::Search.called() {
        Some(Tool::Search)
    } else if name == Tool::GetNote.called() {
        Some(Tool::GetNote)
    } else if name == Tool::Backlinks.called() {
        Some(Tool::Backlinks)
    } else if name == Tool::GraphNeighbors.called() {
        Some(Tool::GraphNeighbors)
    } else if name == Tool::UnresolvedLinks.called() {
        Some(Tool::UnresolvedLinks)
    } else if name == Tool::Stats.called() {
        Some(Tool::Stats)
    } else if name == Tool::GraphRag.called() {
        Some(Tool::GraphRag)
    } else if name == Tool::GenerateMoc.called() {
        Some(Tool::GenerateMoc)
    } else {
        None
    }
}

/// The tool that a name calls.
pub fn find_tool(name: &str) -> (r: Option<Tool>)
    ensures
        r == tool_named(name@),
{
    if same(name, "atlaswiki_search") {
        Some(Tool::Search)
    } else if same(name, "atlaswiki_get_note") {
        Some(Tool::GetNote)
    } else if same(name, "atlaswiki_backlinks") {
        Some(Tool::Backlinks)
    } else if same(name, "atlaswiki_graph_neighbors") {
        Some(Tool::GraphNeighbors)
    } else if same(name, "atlaswiki_unresolved_links") {
        Some(Tool::UnresolvedLinks)
    } else if same(name, "atlaswiki_stats") {
        Some(Tool::Stats)
    } else if same(name, "atlaswiki_graph_rag") {
        Some(Tool::GraphRag)
    } else if same(name, "atlaswiki_generate_moc") {
        Some(Tool::GenerateMoc)
    } else {
        None
    }
}

/// Every tool, on offer or not, is called by its name.
pub proof fn tools_are_called_by_name(t: Tool)
    ensures
        tool_named(t.called()) == Some(t),
{
    reveal_strlit("atlaswiki_search");
    reveal_strlit("atlaswiki_get_note");
    reveal_strlit("atlaswiki_backlinks");
    reveal_strlit("atlaswiki_graph_neighbors");
    reveal_strlit("atlaswiki_unresolved_links");
    reveal_strlit("atlaswiki_stats");
    reveal_strlit("atlaswiki_graph_rag");
    reveal_strlit("atlaswiki_generate_moc");
    assert(Tool::Search.called().len() == 16);
    assert(Tool::GetNote.called().len() == 18);
    assert(Tool::Backlinks.called().len() == 19);
    assert(Tool::GraphNeighbors.called().len() == 25);
    assert(Tool::UnresolvedLinks.called().len() == 26);
    assert(Tool::Stats.called().len() == 15);
    assert(Tool::GraphRag.called().len() == 19);
    assert(Tool::GenerateMoc.called().len() == 22);
    assert(Tool::Backlinks.called()[10] == 'b');
    assert(Tool::GraphRag.called()[10] == 'g');
}

// ---------------------------------------------------------------------------
// Calls
// ---------------------------------------------------------------------------

/// The arguments of a tool, as far as each is there and of its type.
#[derive(Debug)]
pub struct ToolArguments {
    pub query: Option<String>,
    pub limit: Option<u64>,
    pub title: Option<String>,
    pub depth: Option<u64>,
    /// The seeds; one that is no text is nothing.
    pub seeds: Option<Vec<Option<String>>>,
    pub max_hops: Option<u64>,
    pub topic: Option<String>,
}

/// A call of a tool.
#[derive(Debug)]
pub enum ToolCall {
    Search { query: String, limit: usize },
    GetNote { title: String },
    Backlinks { title: String },
    GraphNeighbors { title: String, depth: usize },
    UnresolvedLinks,
    Stats,
    GraphRag { seeds: Vec<String>, max_hops: usize },
    TopicMap { topic: String },
    LivingIndex,
}

/// What a `ToolCall` is.
pub enum CallModel {
    Search { query: Seq<char>, limit: usize },
    GetNote { title: Seq<char> },
    Backlinks { title: Seq<char> },
    GraphNeighbors { title: Seq<char>, depth: usize },
    UnresolvedLinks,
    Stats,
    GraphRag { seeds: Seq<Seq<char>>, max_hops: usize },
    TopicMap { topic: Seq<char> },
    LivingIndex,
}

impl View for ToolCall {
    type V = CallModel;

    open spec fn view(&self) -> CallModel {
        match self {
            ToolCall::Search { query, limit } => CallModel::Search {
                query: query@,
                limit: *limit,
            },
            ToolCall::GetNote { title } => CallModel::GetNote { title: title@ },
            ToolCall::Backlinks { title } => CallModel::Backlinks { title: title@ },
            ToolCall::GraphNeighbors { title, depth } => CallModel::GraphNeighbors {
                title: title@,
                depth: *depth,
            },
            ToolCall::UnresolvedLinks => CallModel::UnresolvedLinks,
            ToolCall::Stats => CallModel::Stats,
            ToolCall::GraphRag { seeds, max_hops } => CallModel::GraphRag {
                seeds: views(seeds@),
                max_hops: *max_hops,
            },
            ToolCall::TopicMap { topic } => CallModel::TopicMap { topic: topic@ },
            ToolCall::LivingIndex => CallModel::LivingIndex,
        }
    }
}

/// The seeds that are texts.
pub open spec fn texts(seeds: Seq<Option<String>>) -> Seq<Seq<char>>
    decreases seeds.len(),
{
    if seeds.len() == 0 {
        Seq::empty()
    } else {
        match seeds.last() {
            Some(s) => texts(seeds.drop_last()).push(s@),
            None => texts(seeds.drop_last()),
        }
    }
}

/// A count that was given, or else the usual one.
pub open spec fn count_or(given: Option<u64>, usual: usize) -> usize {
    match given {
        Some(n) => n as usize,
        None => usual,
    }
}

/// How far neighbours may lie: one hop, or two where that is asked for.
pub open spec fn hops(given: Option<u64>) -> usize {
    match given {
        Some(n) if n >= 2 => 2,
        _ => 1,
    }
}

/// The call that a tool's name and arguments make, or what is wrong with them.
pub open spec fn call_of(name: Seq<char>, args: ToolArguments) -> Result<CallModel, Seq<char>> {
    match tool_named(name) {
        Some(Tool::Search) => match args.query {
            Some(query) => Ok(
                CallModel::Search { query: query@, limit: count_or(args.limit, 10) },
            ),
            None => Err("Missing 'query' parameter"@),
        },
        Some(Tool::GetNote) => match args.title {
            Some(title) => Ok(CallModel::GetNote { title: title@ }),
            None => Err("Missing 'title' parameter"@),
        },
        Some(Tool::Backlinks) => match args.title {
            Some(title) => Ok(CallModel::Backlinks { title: title@ }),
            None => Err("Missing 'title' parameter"@),
        },
        Some(Tool::GraphNeighbors) => match args.title {
            Some(title) => Ok(
                CallModel::GraphNeighbors { title: title@, depth: hops(args.depth) },
            ),
            None => Err("Missing 'title' parameter"@),
        },
        Some(Tool::UnresolvedLinks) => Ok(CallModel::UnresolvedLinks),
        Some(Tool::Stats) => Ok(CallModel::Stats),
        Some(Tool::GraphRag) => match args.seeds {
            Some(seeds) => Ok(
                CallModel::GraphRag {
                    seeds: texts(seeds@),
                    max_hops: count_or(args.max_hops, 3),
                },
            ),
            None => Err("Missing or invalid 'seeds' array"@),
        },
        Some(Tool::GenerateMoc) => match args.topic {
            Some(topic) => Ok(CallModel::TopicMap { topic: topic@ }),
            None => Ok(CallModel::LivingIndex),
        },
        None => Err("Unknown tool: "@ + name),
    }
}

fn given_count(given: Option<u64>, usual: usize) -> (r: usize)
    ensures
        r == count_or(given, usual),
{
    match given {
        Some(n) => {
            #[verifier::truncate]
            (n as usize)
        },
        None => usual,
    }
}

fn given_texts(seeds: Vec<Option<String>>) -> (r: Vec<String>)
    ensures
        views(r@) == texts(seeds@),
{
    broadcast use group_views;

    let ghost all = seeds@;
    let mut r: Vec<String> = Vec::new();
    assert(all.take(0) =~= Seq::empty());
    for seed in it: seeds
        invariant
            it.seq() == all,
            views(r@) == texts(all.take(it.index() as int)),
    {
        let ghost n = it.index() as int;
        assert(all.take(n + 1).drop_last() =~= all.take(n));
        assert(all.take(n + 1).last() == seed);
        match seed {
            Some(s) => r.push(s),
            None => {},
        }
    }
    assert(all.take(all.len() as int) =~= all);
    r
}

/// The outcome of reading a call.
pub open spec fn outcome(r: Result<ToolCall, String>) -> Result<CallModel, Seq<char>> {
    match r {
        Ok(c) => Ok(c@),
        Err(e) => Err(e@),
    }
}

/// Reads the call of a tool.
pub fn call_tool(name: &str, args: ToolArguments) -> (r: Result<ToolCall, String>)
    ensures
        outcome(r) == call_of(name@, args),
{
    match find_tool(name) {
        Some(Tool::Search) => {
            let limit: usize = given_count(args.limit, 10);
            match args.query {
                Some(query) => Ok(ToolCall::Search { query, limit }),
                None => Err("Missing 'query' parameter".to_owned()),
            }
        },
        Some(Tool::GetNote) => match args.title {
            Some(title) => Ok(ToolCall::GetNote { title }),
            None => Err("Missing 'title' parameter".to_owned()),
        },
        Some(Tool::Backlinks) => match args.title {
            Some(title) => Ok(ToolCall::Backlinks { title }),
            None => Err("Missing 'title' parameter".to_owned()),
        },
        Some(Tool::GraphNeighbors) => {
            let depth: usize = match args.depth {
                Some(n) => if n >= 2 {
                    2
                } else {
                    1
                },
                None => 1,
            };
            match args.title {
                Some(title) => Ok(ToolCall::GraphNeighbors { title, depth }),
                None => Err("Missing 'title' parameter".to_owned()),
            }
        },
        Some(Tool::UnresolvedLinks) => Ok(ToolCall::UnresolvedLinks),
        Some(Tool::Stats) => Ok(ToolCall::Stats),
        Some(Tool::GraphRag) => {
            let max_hops: usize = given_count(args.max_hops, 3);
            match args.seeds {
                Some(seeds) => Ok(ToolCall::GraphRag { seeds: given_texts(seeds), max_hops }),
                None => Err("Missing or invalid 'seeds' array".to_owned()),
            }
        },
        Some(Tool::GenerateMoc) => match args.topic {
            Some(topic) => Ok(ToolCall::TopicMap { topic }),
            None => Ok(ToolCall::LivingIndex),
        },
        None => {
            let mut message = "Unknown tool: ".to_owned();
            message.append(name);
            Err(message)
        },
    }
}

/// The neighbours of a note with those one hop further, each of these once and
/// without the note itself.
pub open spec fn with_further(
    center: Seq<char>,
    near: Seq<Seq<char>>,
    further: Seq<Seq<char>>,
) -> Seq<Seq<char>>
    decreases further.len(),
{
    if further.len() == 0 {
        near
    } else {
        let some = with_further(center, near, further.drop_last());
        if further.last() == center || some.contains(further.last()) {
            some
        } else {
            some.push(further.last())
        }
    }
}

/// The neighbours of a note with those one hop further.
pub fn neighbors_within(center: &str, near: Vec<String>, further: &Vec<String>) -> (r: Vec<String>)
    ensures
        views(r@) == with_further(center@, views(near@), views(further@)),
{
    broadcast use group_views;

    let ghost first = views(near@);
    let ghost all = views(further@);
    let mut r: Vec<String> = near;
    let mut i: usize = 0;
    assert(all.take(0) =~= Seq::empty());
    while i < further.len()
        invariant
            i <= further@.len(),
            all == views(further@),
            views(r@) == with_further(center@, first, all.take(i as int)),
        decreases further@.len() - i,
    {
        assert(all.take(i + 1).drop_last() =~= all.take(i as int));
        assert(all.take(i + 1).last() == further@[i as int]@);
        let name = further[i].as_str();
        if !same(name, center) && !holds_str(&r, name) {
            r.push(further[i].clone());
        }
        i += 1;
    }
    assert(all.take(i as int) =~= all);
    r
}

/// Going further keeps the neighbours there are, in their places.
pub proof fn further_hops_keep_neighbors(
    center: Seq<char>,
    near: Seq<Seq<char>>,
    further: Seq<Seq<char>>,
)
    ensures
        near.is_prefix_of(with_further(center, near, further)),
    decreases further.len(),
{
    if further.len() > 0 {
        further_hops_keep_neighbors(center, near, further.drop_last());
    }
}

/// A request asks for what its name says, and for nothing under any other name.
pub proof fn methods_go_by_their_names(name: Seq<char>)
    ensures
        name == "initialize"@ <==> method_of(name) == McpMethod::Initialize,
        name == "notifications/initialized"@ <==> method_of(name) == McpMethod::Initialized,
        name == "ping"@ <==> method_of(name) == McpMethod::Ping,
        name == "tools/list"@ <==> method_of(name) == McpMethod::ListTools,
        name == "tools/call"@ <==> method_of(name) == McpMethod::CallTool,
{
    reveal_strlit("initialize");
    reveal_strlit("notifications/initialized");
    reveal_strlit("ping");
    reveal_strlit("tools/list");
    reveal_strlit("tools/call");
    assert("initialize"@.len() == 10 && "notifications/initialized"@.len() == 25 && "ping"@.len()
        == 4 && "tools/list"@.len() == 10 && "tools/call"@.len() == 10);
    assert("initialize"@[0] == 'i' && "tools/list"@[6] == 'l' && "tools/call"@[6] == 'c'
        && "tools/list"@[0] == 't');
}

/// A tool is called with what it needs, or the call is refused and the reason names what
/// is missing. What else it takes has a usual value: ten hits, three hops, and one hop
/// to neighbours, never more than two.
pub proof fn calls_need_their_arguments(t: Tool, args: ToolArguments)
    ensures
        ({
            let r = call_of(t.called(), args);
            &&& t == Tool::Search ==> match args.query {
                Some(q) => r matches Ok(CallModel::Search { query, limit }) && query == q@ && (
                args.limit is None ==> limit == 10) && (args.limit matches Some(n) ==> limit
                    == n as usize),
                None => r matches Err(e) && e == "Missing 'query' parameter"@,
            }
            &&& t == Tool::GetNote ==> match args.title {
                Some(s) => r matches Ok(CallModel::GetNote { title }) && title == s@,
                None => r matches Err(e) && e == "Missing 'title' parameter"@,
            }
            &&& t == Tool::Backlinks ==> match args.title {
                Some(s) => r matches Ok(CallModel::Backlinks { title }) && title == s@,
                None => r matches Err(e) && e == "Missing 'title' parameter"@,
            }
            &&& t == Tool::GraphNeighbors ==> match args.title {
                Some(s) => r matches Ok(CallModel::GraphNeighbors { title, depth }) && title == s@
                    && 1 <= depth <= 2 && (depth == 2 <==> (args.depth matches Some(n) && n >= 2)),
                None => r matches Err(e) && e == "Missing 'title' parameter"@,
            }
            &&& t == Tool::UnresolvedLinks ==> r == Ok::<CallModel, Seq<char>>(
                CallModel::UnresolvedLinks,
            )
            &&& t == Tool::Stats ==> r == Ok::<CallModel, Seq<char>>(CallModel::Stats)
            &&& t == Tool::GraphRag ==> match args.seeds {
                Some(s) => r matches Ok(CallModel::GraphRag { seeds, max_hops }) && seeds
                    == texts(s@) && (args.max_hops is None ==> max_hops == 3) && (
                args.max_hops matches Some(n) ==> max_hops == n as usize),
                None => r matches Err(e) && e == "Missing or invalid 'seeds' array"@,
            }
            &&& t == Tool::GenerateMoc ==> match args.topic {
                Some(s) => r matches Ok(CallModel::TopicMap { topic }) && topic == s@,
                None => r == Ok::<CallModel, Seq<char>>(CallModel::LivingIndex),
            }
        }),
{
    tools_are_called_by_name(t);
}

/// The seeds of a call are those that are texts, in their order.
pub proof fn seeds_are_the_texts(seeds: Seq<Option<String>>)
    ensures
        texts(seeds).len() == seeds.filter(|s: Option<String>| s is Some).len(),
        forall|k: int|
            0 <= k < texts(seeds).len() ==> #[trigger] texts(seeds)[k] == seeds.filter(
                |s: Option<String>| s is Some,
            )[k]->0@,
    decreases seeds.len(),
{
    reveal(Seq::filter);
    if seeds.len() > 0 {
        seeds_are_the_texts(seeds.drop_last());
    }
}

/// Going further reaches every note one hop further but the note itself, and nothing
/// else; no note comes in twice.
pub proof fn further_hops_reach_the_rest(
    center: Seq<char>,
    near: Seq<Seq<char>>,
    further: Seq<Seq<char>>,
)
    ensures
        forall|x: Seq<char>| #[trigger]
            with_further(center, near, further).contains(x) <==> near.contains(x) || (
            further.contains(x) && x != center),
        near.no_duplicates() ==> with_further(center, near, further).no_duplicates(),
    decreases further.len(),
{
    if further.len() > 0 {
        let rest = further.drop_last();
        further_hops_reach_the_rest(center, near, rest);
        let before = with_further(center, near, rest);
        let r = with_further(center, near, further);
        assert forall|x: Seq<char>| #[trigger] r.contains(x) <==> near.contains(x) || (
        further.contains(x) && x != center) by {
            if r.contains(x) {
                let k = choose|k: int| 0 <= k < r.len() && r[k] == x;
                if k < before.len() {
                    assert(before[k] == x);
                    assert(before.contains(x));
                } else {
                    assert(further[further.len() - 1] == x);
                }
            }
            if before.contains(x) {
                let k = choose|k: int| 0 <= k < before.len() && before[k] == x;
                assert(r[k] == x);
            }
            if rest.contains(x) {
                let k = choose|k: int| 0 <= k < rest.len() && rest[k] == x;
                assert(further[k] == x);
            }
            if further.contains(x) && x != center && !before.contains(x) {
                let k = choose|k: int| 0 <= k < further.len() && further[k] == x;
                if k < rest.len() {
                    assert(rest[k] == x);
                }
                assert(r[before.len() as int] == x);
            }
        }
    }
}

} // verus!
