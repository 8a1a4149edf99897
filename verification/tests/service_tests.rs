use atlaswiki::ast::LinkType;
use atlaswiki::commands::{
    badge, check_fails, document_id, highlight, index_step, is_indexable, is_mapped, shown_hits,
    IndexStep,
};
use atlaswiki::diagnostics::{DiagnosticCode, DiagnosticSeverity};
use atlaswiki::editor::{
    before_cursor, complete, completion_mode, get_line, handle_completion, note_hover, section_hover,
    target_line, CachedNote, CompletionMode, LinkFinder, SectionSpan,
};
use atlaswiki::embedder::{
    ends_within, model_dir_name, read_numbers, EmbedderError, EmbeddingTables, Precision, StoredTensor,
    TensorType, TextRows,
};
use atlaswiki::fusion::{is_higher, HitContext, Score, Scoring};
use atlaswiki::lsp::{
    frame, is_decodable, parse_header, parse_number, path_to_uri, reply_to, uri_to_path,
    HeaderLine, LspMethod, LspReply, OpenDocuments,
};
use atlaswiki::mcp::{
    call_tool, find_tool, is_answered, list_tools, neighbors_within, note_not_found, parse_error,
    parse_method, tool_failed, McpMethod, Tool, ToolArguments, ToolCall,
};
use atlaswiki::parser::MarkdownParser;
use atlaswiki::retrieval::{
    candidate_pool, fused_score, merge_candidates, rank_by_score, sanitize_fts5_query, snippet_of,
    PkbReranker, QueryClassifier, RrfConfig,
};
use atlaswiki::serve::{extract_param, route, urlencoding_decode, Route};
use atlaswiki::storage::{
    bytes_to_embedding, chunk_breadcrumbs, embedding_of_size, embedding_to_bytes, orphaned_rows,
    rows_of, split_sources, stored_breadcrumbs, tag_spellings, whole_components, ManifestRow,
    StorageError, VaultStats,
};
use atlaswiki::watcher::Manifest;
use atlaswiki::wide::{is_huge_less, is_less, product, scaled, sum, times, widened, Wide};
use safetensors::tensor::{Dtype, TensorView};

#[test]
fn rows_of_a_note() {
    let doc = MarkdownParser::new()
        .parse_file("n.md", "# A \"q\"\n## B\n[[X|y]] #tag\n![[Z]] [t](u.md)\n");
    let rows = rows_of(&doc, "id", "n.md", 7, 9);
    assert_eq!(rows.note.doc_id, "id");
    assert_eq!((rows.note.mtime, rows.note.file_size), (7, 9));
    assert_eq!(rows.note.hash, doc.content_hash);
    assert_eq!(rows.sections.len(), 2);
    assert_eq!(rows.sections[1].breadcrumbs_json, "[\"A \\\"q\\\"\",\"B\"]");
    let kinds: Vec<&str> = rows.links.iter().map(|l| l.link_type.as_str()).collect();
    assert_eq!(kinds, vec!["wikilink", "embed", "markdown"]);
    assert_eq!(doc.links[0].link_type, LinkType::Wikilink);
    assert_eq!(rows.tags.len(), 1);
    assert_eq!(rows.tags[0].line_number, 3);
    assert_eq!(rows.chunks.len(), doc.chunks.len());
}

#[test]
fn vectors_read_back() {
    let bits = vec![0u32, 1, 0x3f80_0000, 0xffff_ffff];
    let bytes = embedding_to_bytes(&bits);
    assert_eq!(bytes[8..12], [0, 0, 0x80, 0x3f]);
    assert_eq!(bytes_to_embedding(&bytes).unwrap(), bits);
    let refused = bytes_to_embedding(&vec![1, 2, 3]);
    assert!(matches!(refused, Err(StorageError::InvalidEmbeddingLength(3))));
    assert_eq!(
        refused.unwrap_err().message(),
        "Invalid embedding byte length: expected multiple of 4, got 3"
    );
    assert_eq!(StorageError::DocumentNotFound("x".into()).message(), "Document not found: x");
}

#[test]
fn rows_without_files_are_orphans() {
    let row = |p: &str| ManifestRow { path: p.to_string(), doc_id: p.to_string() };
    let gone = orphaned_rows(vec![row("a"), row("b")], &vec!["b".to_string()]);
    assert_eq!(gone.len(), 1);
    assert_eq!(gone[0].path, "a");
    assert_eq!(tag_spellings("##x"), ("x".to_string(), "#x".to_string()));
    assert_eq!(split_sources("A, B,C"), vec!["A", "B", "C"]);
    assert_eq!(VaultStats::empty().total_words, 0);
}

#[test]
fn queries_are_weighed() {
    let code = QueryClassifier::classify("a::b");
    assert_eq!((code.bm25_weight, code.vector_weight), (850_000, 150_000));
    let question = QueryClassifier::classify("WHY not");
    assert_eq!((question.bm25_weight, question.vector_weight), (200_000, 800_000));
    let plain = QueryClassifier::classify("plain words");
    assert_eq!((plain.bm25_weight, plain.vector_weight), (500_000, 500_000));
}

#[test]
fn queries_are_written_for_the_index() {
    assert_eq!(sanitize_fts5_query(" (hello) wor-ld!! "), "\"hello\"* OR \"wor-ld\"*");
    assert_eq!(sanitize_fts5_query("?! ..."), "");
    assert_eq!(sanitize_fts5_query("_x_"), "\"_x_\"*");
    assert_eq!(candidate_pool(3), 30);
    assert_eq!(candidate_pool(20), 60);
    assert_eq!(snippet_of(&"é".repeat(300)).chars().count(), 200);
}

#[test]
fn ranks_are_fused() {
    let ids = |v: &[&str]| v.iter().map(|s| s.to_string()).collect::<Vec<String>>();
    let merged = merge_candidates(&ids(&["a", "b"]), &ids(&["b", "c"]));
    let ranks: Vec<_> =
        merged.iter().map(|c| (c.chunk_id.as_str(), c.bm25_rank, c.vector_rank)).collect();
    assert_eq!(
        ranks,
        vec![("a", Some(1), None), ("b", Some(2), Some(1)), ("c", None, Some(2))]
    );
    let weights = QueryClassifier::classify("plain words");
    let both = fused_score(weights, RrfConfig::default(), Some(1), Some(2));
    // 0.5/61 + 0.5/62, in millionths.
    assert_eq!(both.num * (61 * 62), (500_000 * 62 + 500_000 * 61) * both.den);
    let one = fused_score(weights, RrfConfig::default(), Some(1), None);
    assert_eq!(one.num * 61, 500_000 * one.den);
    assert!(both.num * one.den > one.num * both.den);
    assert_eq!(rank_by_score(&vec![1, 5, 5], 2), vec![(1, 5), (2, 5)]);
}

#[test]
fn matches_lift_a_hit_up_to_a_bound() {
    let r = PkbReranker::default();
    let none: Vec<String> = vec![];
    let unit = 10u128.pow(30);
    assert_eq!(r.compute_boost("query", "other", "place", &none, 0), unit);
    assert_eq!(r.compute_boost("Query", " query ", "place", &none, 0), unit / 10 * 25);
    assert_eq!(r.compute_boost("query", "my query text", "place", &none, 0), unit / 10 * 16);
    assert_eq!(r.compute_boost("query", "other", "a > query", &none, 0), unit * 2);
    assert_eq!(r.compute_boost("query", "other", "query > a", &none, 0), unit / 10 * 13);
    let tags = vec!["#Query".to_string()];
    assert_eq!(r.compute_boost("query", "other", "place", &tags, 0), unit / 10 * 15);
    assert_eq!(r.compute_boost("query", "other", "place", &none, 1_000_000), unit / 10 * 12);
    assert_eq!(r.compute_boost("query", "other", "place", &none, 5_000_000), unit / 10 * 12);
    assert_eq!(r.compute_boost("query", "query", "query", &tags, 1_000_000), unit * 5);
    let odd = PkbReranker { title_exact_multiplier: 1_255_000, ..r };
    assert_eq!(odd.compute_boost("query", "query", "place", &none, 0), unit / 1000 * 1255);
    let most = PkbReranker {
        title_exact_multiplier: u32::MAX,
        heading_exact_multiplier: u32::MAX,
        tag_match_multiplier: u32::MAX,
        max_pagerank_boost: u32::MAX,
        ..r
    };
    assert_eq!(most.compute_boost("query", "query", "query", &tags, 1_000_000), unit * 5);
}

#[test]
fn fractions_are_compared_exactly() {
    let f = |num: u128, den: u128| Score { num: Wide { hi: 0, lo: num }, den };
    let g = |hi: u128, den: u128| Score { num: Wide { hi, lo: 7 }, den };
    assert!(is_higher(&g(3, u128::MAX), &g(2, u128::MAX)));
    assert!(is_higher(&g(u128::MAX, 1), &g(u128::MAX, u128::MAX)));
    assert!(!is_higher(&g(u128::MAX, u128::MAX), &g(u128::MAX, u128::MAX)));
    assert!(is_higher(&f(2, 3), &f(3, 5)) && !is_higher(&f(3, 5), &f(2, 3)));
    assert!(!is_higher(&f(1, 2), &f(2, 4)) && !is_higher(&f(2, 4), &f(1, 2)));
    let big = u128::MAX;
    assert!(is_higher(&f(big - 1, big - 2), &f(big, big - 1)));
    assert!(!is_higher(&f(big, big - 1), &f(big - 1, big - 2)));
}

#[test]
fn hits_are_ranked_by_score_and_boost() {
    let ids = |v: &[&str]| v.iter().map(|s| s.to_string()).collect::<Vec<String>>();
    let candidates = merge_candidates(&ids(&["a", "b"]), &ids(&["b", "c"]));
    let hit = |title: &str, tags: &[&str], pagerank: u32| HitContext {
        title: title.to_string(),
        breadcrumbs: "elsewhere".to_string(),
        tags: ids(tags),
        pagerank,
    };
    let hits = |t: [&str; 3]| t.iter().map(|s| hit(s, &[], 0)).collect::<Vec<_>>();
    let scoring = Scoring {
        query: "plain words",
        weights: QueryClassifier::classify("plain words"),
        config: RrfConfig::default(),
        reranker: PkbReranker::default(),
    };
    let places = |t: [&str; 3], limit: usize| {
        let ranked = scoring.rank_candidates(&candidates, &hits(t), limit);
        ranked.into_iter().map(|(i, _)| i).collect::<Vec<usize>>()
    };
    assert_eq!(places(["x", "y", "z"], 10), vec![1, 0, 2]);
    assert_eq!(places(["x", "y", "Plain Words"], 10), vec![2, 1, 0]);
    assert_eq!(places(["x", "y", "z"], 1), vec![1]);
    let first = scoring.compute_score(&candidates[0], &hit("Plain Words", &[], 0));
    // A half over 61, times 2.5, in units of ten to the minus 36.
    let small = |num: u128| Score { num: Wide { hi: 0, lo: num }, den: 61 };
    assert_eq!(first, small(500_000 * 25 * 10u128.pow(29)));
    // A tag of the note counts 1.5, and the most central note gains a fifth.
    let tagged = scoring.compute_score(&candidates[0], &hit("x", &["#words"], 0));
    assert_eq!(tagged, small(500_000 * 15 * 10u128.pow(29)));
    let central = scoring.compute_score(&candidates[0], &hit("x", &[], 1_000_000));
    assert_eq!(central, small(500_000 * 12 * 10u128.pow(29)));
}

#[test]
fn requests_find_their_route() {
    assert!(matches!(route("/"), Route::Viewer));
    assert!(matches!(route("/index.html?x=1"), Route::Viewer));
    assert!(matches!(route("/api/graph"), Route::Graph));
    assert!(matches!(route("/api/stats"), Route::Stats));
    assert!(matches!(route("/api/backlinks?title=A%20b"), Route::Backlinks { title } if title == "A b"));
    assert!(matches!(route("/api/note"), Route::Note { title } if title.is_empty()));
    assert!(matches!(
        route("/api/search?q=a+b&limit=5"),
        Route::Search { query, limit: 5 } if query == "a b"
    ));
    assert!(matches!(route("/api/search?q=x&limit=no"), Route::Search { limit: 20, .. }));
    assert!(matches!(route("/nothing"), Route::NotFound));
    assert_eq!(urlencoding_decode("%C3%A9+x"), Some("é x".to_string()));
    assert_eq!(urlencoding_decode("é中+%41"), Some("é中 A".to_string()));
    assert_eq!(urlencoding_decode("%zz"), None);
    assert_eq!(urlencoding_decode("%ff"), None);
    assert_eq!(extract_param("a=1&b=2", "b"), Some("2".to_string()));
    assert_eq!(extract_param("a=1", "c"), None);
}

#[test]
fn messages_are_framed_by_their_length() {
    let framed = frame("{\"é\":1}");
    assert_eq!(framed, "Content-Length: 8\r\n\r\n{\"é\":1}");
    let header = framed.split_inclusive("\r\n").next().unwrap();
    assert_eq!(parse_header(header), HeaderLine::ContentLength(Some(8)));
    assert_eq!(parse_header("\r\n"), HeaderLine::End);
    assert_eq!(parse_header("content-LENGTH :  +7 \r\n"), HeaderLine::ContentLength(Some(7)));
    assert_eq!(parse_header("Content-Length: x\n"), HeaderLine::ContentLength(None));
    assert_eq!(parse_header("Content-Type: a\n"), HeaderLine::Other);
    assert_eq!(parse_header("nothing\n"), HeaderLine::Other);
    assert_eq!(parse_number("18446744073709551616"), None);
    assert_eq!(parse_number(""), None);
}

#[test]
fn uris_lead_back_to_their_paths() {
    let path = "/home/me/my notes/a+b (1).md";
    let uri = path_to_uri(path);
    assert_eq!(uri, "file:///home/me/my%20notes/a%2Bb%20%281%29.md");
    assert!(is_decodable(&uri));
    assert_eq!(uri_to_path(&uri).as_deref(), Some(path));
    assert_eq!(uri_to_path("/plain").as_deref(), Some("/plain"));
    let path = "/home/é/中文 note.md";
    assert_eq!(uri_to_path(&path_to_uri(path)).as_deref(), Some(path));
    assert_eq!(uri_to_path("file:///a%FFb").as_deref(), Some("/aÿb"));
}

#[test]
fn requests_are_answered_as_their_method_asks() {
    assert_eq!(reply_to(atlaswiki::lsp::parse_method("initialize"), true), LspReply::Result);
    assert_eq!(reply_to(atlaswiki::lsp::parse_method("initialized"), true), LspReply::Silent);
    assert_eq!(reply_to(atlaswiki::lsp::parse_method("shutdown"), true), LspReply::Null);
    assert_eq!(reply_to(atlaswiki::lsp::parse_method("textDocument/hover"), true), LspReply::Result);
    assert_eq!(reply_to(atlaswiki::lsp::parse_method("textDocument/hover"), false), LspReply::Silent);
    assert_eq!(reply_to(atlaswiki::lsp::parse_method("other"), true), LspReply::MethodNotFound);
    assert_eq!(reply_to(atlaswiki::lsp::parse_method("other"), false), LspReply::Silent);
    assert_eq!(atlaswiki::lsp::parse_method("exit"), LspMethod::Exit);
    assert_eq!(atlaswiki::lsp::method_not_found("x"), "Method 'x' not found");
}

#[test]
fn open_documents_hold_the_last_text() {
    let mut open = OpenDocuments::new();
    assert_eq!(open.get("u"), None);
    open.set("u", "one");
    open.change("u", &vec!["two".to_string(), "three".to_string()]);
    assert_eq!(open.get("u").as_deref(), Some("three"));
    open.change("u", &vec![]);
    assert_eq!(open.get("u").as_deref(), Some("three"));
    open.close("u");
    assert_eq!(open.get("u"), None);
}

fn cached() -> Vec<CachedNote> {
    vec![CachedNote {
        doc_id: "1".into(),
        title: "Note".into(),
        path: "note.md".into(),
        aliases: vec!["N".into()],
        tags: vec!["a".into(), "b".into()],
        word_count: 4,
    }]
}

#[test]
fn completion_follows_what_was_typed() {
    assert_eq!(completion_mode(None, "see [["), CompletionMode::Links);
    assert_eq!(completion_mode(Some("#"), "text"), CompletionMode::Tags);
    assert_eq!(completion_mode(None, "see [[a]] #ta"), CompletionMode::Tags);
    assert_eq!(completion_mode(None, "plain"), CompletionMode::Titles);
    let items = complete(CompletionMode::Links, &cached(), &vec![]);
    assert_eq!(items.len(), 2);
    assert_eq!(items[0].insert_text, "Note");
    assert_eq!(items[0].documentation.as_deref(), Some("**Note** (4 words)\n\nTags: a, b"));
    assert_eq!(items[1].insert_text, "Note|N");
    assert_eq!(items[1].detail, "alias of [[Note]]");
    let tags = complete(CompletionMode::Tags, &cached(), &vec!["#x".to_string()]);
    assert_eq!(tags[0].label, "#x");
    assert_eq!((tags[0].kind, tags[0].insert_text.as_str()), (14, "x"));
    let typed = handle_completion(&cached(), &vec![], "one\ntwo [[", 1, 6, None);
    assert_eq!(typed.len(), 2);
    let beyond = handle_completion(&cached(), &vec![], "one", 9, 9, None);
    assert_eq!(beyond.len(), 1);
    assert_eq!(beyond[0].documentation, None);
    assert_eq!(get_line("a\nb", 1), "b");
    // Columns are counted in units of UTF-16.
    assert_eq!(before_cursor("é𝔾o", 0), "");
    assert_eq!(before_cursor("é𝔾o", 1), "é");
    assert_eq!(before_cursor("é𝔾o", 2), "é");
    assert_eq!(before_cursor("é𝔾o", 3), "é𝔾");
    assert_eq!(before_cursor("é𝔾o", 9), "é𝔾o");
    assert_eq!(completion_mode(None, "[[at the start"), CompletionMode::Links);
    assert_eq!(completion_mode(None, "[[a]] b"), CompletionMode::Titles);
}

#[test]
fn links_are_found_under_the_cursor() {
    let finder = LinkFinder::new();
    let text = "x [[A#Part]] ![[B]]";
    let first = finder.links_at(text, 0, 5);
    assert_eq!(first.len(), 1);
    assert_eq!(first[0].target, "A");
    assert_eq!(first[0].heading.as_deref(), Some("Part"));
    assert!(!first[0].is_embed);
    let second = finder.links_at(text, 0, 15);
    assert!(second[0].is_embed && second[0].target == "B");
    assert_eq!(finder.links_at("𝔾é [[A]]", 0, 4).len(), 1);
    assert!(finder.links_at("𝔾é [[A]]", 0, 3).is_empty());
    assert!(finder.links_at(text, 0, 0).is_empty());
    assert!(finder.links_at(text, 3, 0).is_empty());
}

#[test]
fn hovers_show_section_or_note() {
    let sections = vec![SectionSpan {
        heading: "Part".into(),
        line_start: 5,
        line_end: 9,
        content: " body ".into(),
    }];
    assert_eq!(target_line(&sections, &Some("part".to_string())), 4);
    assert_eq!(target_line(&sections, &Some("none".to_string())), 0);
    assert_eq!(target_line(&sections, &None), 0);
    assert_eq!(
        section_hover("T", &sections, "PART", false).as_deref(),
        Some("### T > Part\n*[Section Link] lines 5-9*\n\nbody")
    );
    assert_eq!(section_hover("T", &sections, "none", true), None);
    assert_eq!(
        note_hover("T", "t.md", 3, true, "---\na: b\n---\n Hello \n"),
        "### T\n*[Transclusion Note] `t.md`* | *Words: 3*\n\n---\nHello"
    );
    assert_eq!(
        note_hover("T", "t.md", 3, false, "Hello"),
        "### T\n*[Note Preview] `t.md`* | *Words: 3*\n\n---\nHello"
    );
}

fn no_arguments() -> ToolArguments {
    ToolArguments {
        query: None,
        limit: None,
        title: None,
        depth: None,
        seeds: None,
        max_hops: None,
        topic: None,
    }
}

#[test]
fn every_listed_tool_can_be_called() {
    let tools = list_tools();
    let names: Vec<&str> = tools.iter().map(|t| t.name()).collect();
    assert_eq!(
        names,
        vec![
            "atlaswiki_search",
            "atlaswiki_get_note",
            "atlaswiki_backlinks",
            "atlaswiki_graph_neighbors",
            "atlaswiki_unresolved_links",
            "atlaswiki_stats",
        ]
    );
    for tool in tools.iter().chain([Tool::GraphRag, Tool::GenerateMoc].iter()) {
        assert_eq!(find_tool(tool.name()), Some(*tool));
        assert!(!tool.description().is_empty());
        if let Some(name) = tool.required() {
            assert!(tool.parameters().iter().any(|p| p.name == name));
        }
    }
    assert_eq!(Tool::GraphRag.parameters()[0].kind, "array");
    assert_eq!(find_tool("other"), None);
}

#[test]
fn tool_calls_are_read_from_their_arguments() {
    let missing = |name: &str| call_tool(name, no_arguments()).unwrap_err();
    assert_eq!(missing("atlaswiki_search"), "Missing 'query' parameter");
    assert_eq!(missing("atlaswiki_get_note"), "Missing 'title' parameter");
    assert_eq!(missing("atlaswiki_graph_rag"), "Missing or invalid 'seeds' array");
    assert_eq!(missing("nope"), "Unknown tool: nope");
    let mut args = no_arguments();
    args.query = Some("q".into());
    assert!(matches!(
        call_tool("atlaswiki_search", args),
        Ok(ToolCall::Search { query, limit: 10 }) if query == "q"
    ));
    let mut args = no_arguments();
    args.seeds = Some(vec![Some("A".into()), None, Some("B".into())]);
    args.max_hops = Some(2);
    assert!(matches!(
        call_tool("atlaswiki_graph_rag", args),
        Ok(ToolCall::GraphRag { seeds, max_hops: 2 }) if seeds == vec!["A", "B"]
    ));
    for (depth, want) in [(None, 1), (Some(0), 1), (Some(2), 2), (Some(9), 2)] {
        let mut args = no_arguments();
        args.title = Some("T".into());
        args.depth = depth;
        assert!(matches!(
            call_tool("atlaswiki_graph_neighbors", args),
            Ok(ToolCall::GraphNeighbors { title, depth }) if title == "T" && depth == want
        ));
    }
    assert!(matches!(
        call_tool("atlaswiki_generate_moc", no_arguments()),
        Ok(ToolCall::LivingIndex)
    ));
    assert!(matches!(call_tool("atlaswiki_stats", no_arguments()), Ok(ToolCall::Stats)));
}

#[test]
fn neighbours_one_hop_further() {
    let names = |v: &[&str]| v.iter().map(|s| s.to_string()).collect::<Vec<String>>();
    let all = neighbors_within("C", names(&["A", "A", "B"]), &names(&["C", "B", "D", "D"]));
    assert_eq!(all, names(&["A", "A", "B", "D"]));
}

#[test]
fn requests_to_the_tool_server() {
    assert_eq!(parse_method("tools/call"), McpMethod::CallTool);
    assert_eq!(parse_method("tools/other"), McpMethod::Unknown);
    assert!(!is_answered(parse_method("notifications/initialized"), true));
    assert!(!is_answered(parse_method("notifications/initialized"), false));
    assert!(is_answered(parse_method("ping"), true));
    assert!(!is_answered(parse_method("ping"), false));
    assert!(!is_answered(parse_method("tools/call"), false));
    assert_eq!(parse_error("bad").code, -32700);
    assert_eq!(parse_error("bad").message, "Parse error: bad");
    let missing = atlaswiki::mcp::method_not_found("m");
    assert_eq!((missing.code, missing.message.as_str()), (-32601, "Method not found: m"));
    assert_eq!(tool_failed("t".into()).code, -32000);
    assert_eq!(note_not_found("X"), "Note 'X' not found in vault index");
}

#[test]
fn commands_choose_their_files() {
    assert!(is_indexable("dir/note.md"));
    assert!(!is_indexable(".obsidian/note.md"));
    assert!(!is_indexable(".github/note.md"));
    assert!(!is_indexable("note.txt") && !is_indexable("note"));
    assert!(is_indexable("node_modules/x.md") && !is_mapped("node_modules/x.md"));
    let stored = Some(Manifest { hash: "h".into(), mtime_ms: 1, size_bytes: 2 });
    assert_eq!(index_step(false, &stored, 1, 2), IndexStep::Skip);
    assert_eq!(index_step(false, &stored, 1, 3), IndexStep::Compare);
    assert_eq!(index_step(true, &stored, 1, 2), IndexStep::Take);
    assert_eq!(index_step(false, &None, 1, 2), IndexStep::Take);
    assert_eq!(document_id("0123456789abcdef99"), "doc_0123456789abcdef");
}

#[test]
fn hits_are_shown_by_tag() {
    let tags = |t: &[&str]| t.iter().map(|s| s.to_string()).collect::<Vec<String>>();
    let hits = vec![tags(&["ai/ml"]), tags(&["cs"]), tags(&["#AI/ML/deep"]), tags(&["ai"])];
    assert_eq!(shown_hits(&hits, Some("#ai/ml"), 10), vec![0, 2]);
    assert_eq!(shown_hits(&hits, Some("ai"), 2), vec![0, 2]);
    assert_eq!(shown_hits(&hits, None, 3), vec![0, 1, 2]);
    assert!(shown_hits(&hits, None, 0).is_empty());
}

#[test]
fn matches_are_marked_for_a_terminal() {
    assert_eq!(highlight(" a <b>b</b> <b>c</b>... "), "a \x1b[1;33mb\x1b[0m \x1b[1;33mc\x1b[0m...");
    assert_eq!(highlight("plain"), "plain");
}

#[test]
fn checks_fail_only_when_strict() {
    assert!(check_fails(true, 1));
    assert!(!check_fails(true, 0) && !check_fails(false, 5));
    assert_eq!(badge(DiagnosticSeverity::Error, DiagnosticCode::UnresolvedWikilink), "error[W001]");
    assert_eq!(badge(DiagnosticSeverity::Warning, DiagnosticCode::DeadMarkdownLink), "warning[W005]");
}

fn file_of(tensors: &[(&str, Dtype, Vec<usize>, Vec<u8>)]) -> Vec<u8> {
    let views: Vec<(String, TensorView)> = tensors
        .iter()
        .map(|(name, kind, shape, data)| {
            (name.to_string(), TensorView::new(*kind, shape.clone(), data).unwrap())
        })
        .collect();
    safetensors::serialize(views, &None).unwrap()
}

#[test]
fn embedding_tables_are_read_from_a_file() {
    let table: Vec<u8> = [1.0f32, 2.0, 3.0, 4.0].iter().flat_map(|x| x.to_le_bytes()).collect();
    let weights: Vec<u8> = [0.5f32, 2.0].iter().flat_map(|x| x.to_le_bytes()).collect();
    let mapping: Vec<u8> = [1i64, -1, 0].iter().flat_map(|x| x.to_le_bytes()).collect();
    let file = file_of(&[
        ("embeddings.weight", Dtype::F32, vec![2, 2], table),
        ("weights", Dtype::F32, vec![2], weights),
        ("mapping", Dtype::I64, vec![3], mapping),
    ]);
    let tables = EmbeddingTables::from_bytes(&file).unwrap();
    assert_eq!((tables.vocab_size, tables.dim), (2, 2));
    assert_eq!(tables.embeddings.precision, Precision::Single);
    assert_eq!(tables.row_bits(1), vec![3.0f32.to_bits() as u64, 4.0f32.to_bits() as u64]);
    let rows = tables.rows_of_text(&vec![0, 1, 2, 9], 10).unwrap();
    let plain: Vec<(usize, Option<u64>)> = rows.iter().map(|r| (r.row, r.weight)).collect();
    // Token 1 is mapped to no row, token 9 has none.
    assert_eq!(plain, vec![(1, Some(0.5f32.to_bits() as u64)), (0, None)]);
    assert_eq!(tables.rows_of_text(&vec![0, 1, 2], 1).unwrap().len(), 1);
    assert!(tables.rows_of_text(&vec![], 5).is_none());
}

#[test]
fn unfit_models_are_refused() {
    let refused = |r: Result<EmbeddingTables, EmbedderError>| r.unwrap_err().message();
    assert_eq!(
        refused(EmbeddingTables::from_bytes(&vec![1, 2, 3])),
        "Failed to deserialize model.safetensors"
    );
    assert!(ends_within(&vec![0, 5], usize::MAX - 5) && !ends_within(&vec![0, 6], usize::MAX - 5));
    let claim = format!(
        r#"{{"embeddings":{{"dtype":"I8","shape":[{0}],"data_offsets":[0,{0}]}}}}"#,
        usize::MAX - 3
    );
    let mut huge = (claim.len() as u64).to_le_bytes().to_vec();
    huge.extend_from_slice(claim.as_bytes());
    assert_eq!(
        refused(EmbeddingTables::from_bytes(&huge)),
        "Failed to deserialize model.safetensors"
    );
    let other = file_of(&[("other", Dtype::F32, vec![1], vec![0; 4])]);
    assert_eq!(
        refused(EmbeddingTables::from_bytes(&other)),
        "Embedding tensor not found in safetensors"
    );
    let flat = file_of(&[("0", Dtype::F32, vec![1, 1, 1], vec![0; 4])]);
    assert_eq!(
        refused(EmbeddingTables::from_bytes(&flat)),
        "Embedding tensor must be 2D, got shape: [1, 1, 1]"
    );
    let doubles = file_of(&[("embeddings", Dtype::F64, vec![1, 1], vec![0; 8])]);
    assert_eq!(refused(EmbeddingTables::from_bytes(&doubles)), "Unsupported tensor dtype: F64");
    let bytes = |name: &str| {
        file_of(&[
            ("embeddings", Dtype::I8, vec![1, 2], vec![0xff, 1]),
            (name, Dtype::U8, vec![1], vec![0]),
        ])
    };
    assert_eq!(
        refused(EmbeddingTables::from_bytes(&bytes("weights"))),
        "Unsupported weights dtype"
    );
    assert_eq!(
        refused(EmbeddingTables::from_bytes(&bytes("mapping"))),
        "Unsupported mapping dtype"
    );
    let short = StoredTensor { kind: TensorType::F16, shape: vec![2, 3], data: vec![0; 4] };
    assert_eq!(
        refused(EmbeddingTables::from_tensors(Some(short), None, None)),
        "Decoded embeddings length 2 != vocab_size 2 * dim 3"
    );
}

#[test]
fn mapped_rows_of_32_bits() {
    let table = StoredTensor { kind: TensorType::I8, shape: vec![2, 1], data: vec![5, 6] };
    let mapping: Vec<u8> = [1i32, -1].iter().flat_map(|x| x.to_le_bytes()).collect();
    let mapping = StoredTensor { kind: TensorType::I32, shape: vec![2], data: mapping };
    let tables = EmbeddingTables::from_tensors(Some(table), None, Some(mapping)).unwrap();
    assert_eq!(tables.token_mapping, Some(vec![1, usize::MAX]));
    assert_eq!(tables.row_bits(1), vec![6]);
    assert_eq!(read_numbers(&vec![1, 2, 3, 4, 5], 2), vec![0x0201, 0x0403]);
    assert_eq!(model_dir_name("org/model/x"), "org--model--x");
}

#[test]
fn a_better_rank_scores_higher() {
    let weights = QueryClassifier::classify("plain words");
    for rank in 1..100u32 {
        let better = fused_score(weights, RrfConfig::default(), Some(rank), Some(7));
        let worse = fused_score(weights, RrfConfig::default(), Some(rank + 1), Some(7));
        assert!(better.num * worse.den > worse.num * better.den);
    }
}

const WORD_PIECES: &str = r###"{"type":"WordPiece","unk_token":"[UNK]","continuing_subword_prefix":"##","max_input_chars_per_word":100,"vocab":{"[PAD]":0,"[UNK]":1,"hello":2,"wor":3,"##ld":4,",":5}}"###;

/// A tokenizer file with these sections beside the model.
fn tokenizer_file(sections: &str, model: &str) -> Vec<u8> {
    format!(r#"{{"version":"1.0",{sections}"model":{model}}}"#).into_bytes()
}

fn usual_sections() -> String {
    let token = |id: u32, content: &str| {
        format!(
            r#"{{"id":{id},"content":"{content}","single_word":false,"lstrip":false,"rstrip":false,"normalized":false,"special":true}}"#
        )
    };
    format!(
        r###""truncation":{{"direction":"Right","max_length":512,"strategy":"LongestFirst","stride":0}},"padding":{{"strategy":"BatchLongest","direction":"Right","pad_to_multiple_of":null,"pad_id":0,"pad_type_id":0,"pad_token":"[PAD]"}},"added_tokens":[{},{}],"normalizer":{{"type":"BertNormalizer","clean_text":true,"handle_chinese_chars":true,"strip_accents":null,"lowercase":true}},"pre_tokenizer":{{"type":"BertPreTokenizer"}},"post_processor":{{"type":"TemplateProcessing","single":[{{"SpecialToken":{{"id":"[PAD]","type_id":0}}}},{{"Sequence":{{"id":"A","type_id":0}}}}],"pair":[{{"Sequence":{{"id":"A","type_id":0}}}},{{"Sequence":{{"id":"B","type_id":1}}}}],"special_tokens":{{"[PAD]":{{"id":"[PAD]","ids":[0],"tokens":["[PAD]"]}}}}}},"decoder":{{"type":"WordPiece","prefix":"##","cleanup":true}},"###,
        token(0, "[PAD]"),
        token(1, "[UNK]")
    )
}

/// A model file of six rows with one number each.
fn small_table() -> Vec<u8> {
    file_of(&[("embeddings", Dtype::I8, vec![6, 1], vec![0, 1, 2, 3, 4, 5])])
}

#[test]
fn texts_are_taken_apart_into_rows() {
    for sections in [String::new(), usual_sections()] {
        let file = tokenizer_file(&sections, WORD_PIECES);
        let model = TextRows::from_bytes(&file, &small_table()).unwrap();
        assert_eq!((model.tables().vocab_size, model.tables().dim), (6, 1));
        let rows = |text: &str, most: usize| {
            let rows = model.rows_of(text, most).unwrap().unwrap();
            rows.iter().map(|r| r.row).collect::<Vec<usize>>()
        };
        assert_eq!(rows("hello", 10), vec![2]);
        assert_eq!(rows("world", 10), vec![3, 4]);
        assert_eq!(rows("world", 1), vec![3]);
        assert_eq!(rows("[UNK]", 10), vec![1]);
        assert!(model.rows_of("", 10).unwrap().is_none());
        if !sections.is_empty() {
            assert_eq!(rows("  Hello, WÖRLD nonsense [PAD]é\u{4e2d}", 10), vec![2, 5, 3, 4, 1, 0, 1, 1]);
        }
    }
}

#[test]
fn only_plain_tokenizers_are_taken() {
    let refused = |file: Vec<u8>| TextRows::from_bytes(&file, &small_table()).unwrap_err();
    let unchecked = "Tokenizer is not of the plain kind";
    for sections in [
        r#""truncation":{"max_length":4,"strategy":"LongestFirst","stride":4},"#,
        r#""truncation":["Right",4,"LongestFirst",9],"#,
        r#""padding":{"strategy":{"Fixed":9},"direction":"Right","pad_to_multiple_of":null,"pad_id":0,"pad_type_id":0,"pad_token":"x"},"#,
        r#""normalizer":{"type":"Precompiled","precompiled_charsmap":"AA=="},"#,
        r#""normalizer":{"type":"BertNormalizer"},"#,
        r#""pre_tokenizer":{"type":"Metaspace"},"#,
        r#""decoder":{"type":"Fuse"},"#,
        r#""decoder":{"type":"Fuse"},"decoder":null,"#,
        r#""post_processor":{"type":"TemplateProcessing","single":[{"Sequence":{"id":"B","type_id":0}}],"pair":[],"special_tokens":{}},"#,
        r#""added_tokens":[{"id":7,"content":"new","single_word":false,"lstrip":false,"rstrip":false,"normalized":true,"special":false}],"#,
        r#""added_tokens":null,"#,
    ] {
        assert_eq!(refused(tokenizer_file(sections, WORD_PIECES)).message(), unchecked, "{sections}");
    }
    assert_eq!(refused(tokenizer_file("", r#"{"type":"BPE","dropout":0.5}"#)).message(), unchecked);
    assert_eq!(refused(b"[]".to_vec()).message(), unchecked);
    assert_eq!(refused(b"{".to_vec()).message(), unchecked);
    let broken = tokenizer_file("", r#"{"type":"WordPiece","vocab":{"a":-1}}"#);
    assert_eq!(refused(broken).message(), "Failed to deserialize tokenizer");
    let good = tokenizer_file("", WORD_PIECES);
    assert_eq!(
        TextRows::from_bytes(&good, &vec![1, 2]).unwrap_err().message(),
        "Failed to deserialize model.safetensors"
    );
}

#[test]
fn a_text_without_a_token_for_the_unknown_fails() {
    let pieces = WORD_PIECES.replace("\"[UNK]\":1,", "");
    let file = tokenizer_file("", &pieces);
    let model = TextRows::from_bytes(&file, &small_table()).unwrap();
    assert!(model.rows_of("nonsense", 10).is_none());
    assert!(model.rows_of("hello", 10).is_some());
}

#[test]
fn breadcrumbs_are_read_as_they_were_stored() {
    let doc = MarkdownParser::new().parse_file("n.md", "# Top \"é\"\n## Part\ntext\n");
    let rows = rows_of(&doc, "id", "n.md", 1, 2);
    for (row, section) in rows.sections.iter().zip(&doc.sections) {
        assert_eq!(stored_breadcrumbs(&row.breadcrumbs_json), section.breadcrumbs);
    }
    assert_eq!(rows.sections[1].breadcrumbs_json, "[\"Top \\\"é\\\"\",\"Part\"]");
    let last = rows.chunks.last().unwrap();
    assert_eq!(chunk_breadcrumbs(&last.breadcrumbs), vec!["Top \"é\"", "Part"]);
    assert!(stored_breadcrumbs("no list").is_empty());
    assert!(stored_breadcrumbs("[1]").is_empty());
    assert_eq!(chunk_breadcrumbs("Note > H1 > H2"), vec!["Note", "H1", "H2"]);
    assert_eq!(chunk_breadcrumbs(""), vec![""]);
}

#[test]
fn stored_vectors_have_their_size() {
    assert_eq!(embedding_of_size(&vec![1, 0, 0, 0, 2, 0, 0, 0], 2), Some(vec![1, 2]));
    assert_eq!(embedding_of_size(&vec![1, 0, 0, 0], 2), None);
    assert_eq!(embedding_of_size(&vec![1, 0, 0, 0, 9], 1), None);
    assert_eq!(whole_components(&vec![1, 0, 0, 0, 9]), vec![1]);
}

#[test]
fn large_numbers_are_multiplied_exactly() {
    let max = u128::MAX;
    assert_eq!(product(max, max), Wide { hi: max - 1, lo: 1 });
    assert_eq!(product(1 << 100, 1 << 100), Wide { hi: 1 << 72, lo: 0 });
    assert_eq!(product(12, 13), widened(156));
    assert_eq!(sum(widened(max), widened(2)), Wide { hi: 1, lo: 1 });
    assert_eq!(times(Wide { hi: 1, lo: max }, 3), Wide { hi: 5, lo: max - 2 });
    assert!(is_less(&widened(max), &Wide { hi: 1, lo: 0 }));
    let huge = scaled(Wide { hi: max, lo: max }, max);
    assert_eq!((huge.top, huge.rest), (max - 1, Wide { hi: max, lo: 1 }));
    assert!(is_huge_less(&scaled(widened(5), 7), &scaled(widened(6), 6)));
    assert!(!is_huge_less(&scaled(widened(6), 6), &scaled(widened(6), 6)));
}
