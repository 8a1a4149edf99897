use atlaswiki::ast::ParsedDocument;
use atlaswiki::diagnostics::{DiagnosticCode, DiagnosticSeverity, DiagnosticsEngine};
use atlaswiki::graph::{EdgeType, KnowledgeGraph, NodeType, Rank};
use atlaswiki::graph_rag::{GraphPath, PathEdge};
use atlaswiki::parser::MarkdownParser;
use atlaswiki::rag_graph::{DocRow, GraphRagEngine, LinkRow, SnippetRow, TagRow};
use atlaswiki::typo::TypoCorrectionEngine;

fn notes(texts: &[(&str, &str)]) -> Vec<ParsedDocument> {
    let parser = MarkdownParser::new();
    texts.iter().map(|(path, text)| parser.parse_file(path, text)).collect()
}

#[test]
fn a_graph_mirrors_its_notes() {
    let docs = notes(&[
        ("a.md", "---\naliases: [First]\n---\n# A\n[[B]] ![[C#Top]]\n"),
        ("b.md", "# B\n[to a](First.md)\n"),
    ]);
    let graph = KnowledgeGraph::from_documents(&docs);
    assert_eq!(graph.node_count(), 3);
    assert_eq!(graph.node(2).title, "C");
    assert_eq!(graph.node(2).node_type, NodeType::Dangling);
    assert_eq!(graph.degree("a"), Some((1, 2)));
    assert_eq!(graph.degree("nobody"), None);
    assert_eq!(graph.sources_of(0), vec![1]);
    let links = graph.get_backlinks("C");
    assert_eq!(links.len(), 1);
    assert_eq!(links[0].0.title, "A");
    assert_eq!(links[0].1.edge_type, EdgeType::Embed);
    assert_eq!(links[0].1.weight, 20);
    assert_eq!(links[0].1.heading.as_deref(), Some("Top"));
}

#[test]
fn the_shortest_way_is_found_among_longer_ones() {
    let docs = notes(&[
        ("a.md", "# A\n[[B]] [[X]]"),
        ("b.md", "# B\n[[C]]"),
        ("c.md", "# C\n[[D]]"),
        ("x.md", "# X\n[[D]]"),
        ("d.md", "# D\nend"),
    ]);
    let graph = KnowledgeGraph::from_documents(&docs);
    assert_eq!(graph.shortest_path("a", "d"), Some(vec!["A".into(), "X".into(), "D".into()]));
    assert_eq!(graph.shortest_path("A", "A"), Some(vec!["A".into()]));
    assert_eq!(graph.shortest_path("D", "A"), None);
    assert_eq!(graph.shortest_path("A", "nobody"), None);
}

#[test]
fn wanted_pages_fall_by_references() {
    let docs = notes(&[("a.md", "# A\n[[X]] [[Y]]"), ("b.md", "# B\n[[Y]]")]);
    let wanted = KnowledgeGraph::from_documents(&docs).get_wanted_pages();
    assert_eq!(wanted, vec![("Y".to_string(), 2), ("X".to_string(), 1)]);
}

#[test]
fn ranks_are_kept_by_title() {
    let docs = notes(&[("a.md", "# A\n[[B]]"), ("b.md", "# B\n")]);
    let mut graph = KnowledgeGraph::from_documents(&docs);
    assert_eq!(graph.get_pagerank("A").long, "0.0000");
    let rank = |key: u32| Rank { key, short: key.to_string(), long: key.to_string() };
    graph.assign_ranks(&vec![rank(7), rank(9)]);
    assert_eq!(graph.get_pagerank("b").key, 9);
    assert_eq!(graph.get_pagerank("nobody").key, 0);
    let shown = graph.to_d3_json();
    assert_eq!(shown.total_nodes, 2);
    assert_eq!(shown.total_edges, 1);
    assert_eq!(shown.nodes[0].pagerank.key, 7);
    assert_eq!(shown.links[0].edge_type, "wikilink");
    assert_eq!(shown.links[0].weight, 10);
}

#[test]
fn edits_between_words() {
    let d = TypoCorrectionEngine::damerau_levenshtein;
    assert_eq!(d("kitten", "sitting"), 3);
    assert_eq!(d("abcd", "abdc"), 1);
    assert_eq!(d("", "abc"), 3);
    assert_eq!(d("Case", "cASE"), 0);
    assert_eq!(d("kitten", "sitting"), d("sitting", "kitten"));
    assert_eq!(d("ca", "abc"), 3);
}

#[test]
fn suggestions_are_few_close_and_distinct() {
    let engine = TypoCorrectionEngine::default();
    let words: Vec<String> =
        ["Machine Learning", "machine learning", "Machine Burning", "Deep", "Machine Leaning"]
            .iter()
            .map(|s| s.to_string())
            .collect();
    let found = engine.suggest("Machine Learnin", &words);
    assert_eq!(found, vec!["Machine Learning", "Machine Leaning"]);
    assert!(engine.suggest("", &words).is_empty());
    assert_eq!(engine.suggest("Dep", &words), vec!["Deep"]);
    assert!(engine.suggest("deep", &words).is_empty());
    assert!(TypoCorrectionEngine::new(3, 1000).suggest("Dep", &words).is_empty());
}

#[test]
fn targets_resolve_by_title_alias_and_path() {
    let docs = notes(&[
        ("dir/note.md", "---\ntitle: The Note\naliases: [TN]\n---\n# Top\ntext ^block-1\n"),
        ("dir/other.md", "# Other\n"),
    ]);
    let mut engine = DiagnosticsEngine::new();
    for d in &docs {
        engine.index_document(d);
    }
    for name in ["The Note", "the note", "TN", "note", "dir/note", "dir/note.md"] {
        assert!(engine.resolve_target(None, name).is_some(), "{name}");
    }
    assert!(engine.resolve_target(Some("dir/other.md"), "./note").is_some());
    assert!(engine.resolve_target(None, "nothing").is_none());
    assert!(engine.all_known_targets().contains(&"The Note".to_string()));
}

#[test]
fn every_kind_of_finding() {
    let docs = notes(&[
        ("a.md", "# A\n## Part\ntext ^b1\n"),
        (
            "b.md",
            "# B\n[[Nope]]\n![[Gone]]\n[x](missing.md)\n[[A#Prt]]\n[[A#^b2]]\n[[A#Part]] [[A#^b1]]\n",
        ),
    ]);
    let mut engine = DiagnosticsEngine::default();
    for d in &docs {
        engine.index_document(d);
    }
    let lenient = engine.run(&docs, false);
    let codes: Vec<DiagnosticCode> = lenient.diagnostics.iter().map(|d| d.code).collect();
    assert_eq!(
        codes,
        vec![
            DiagnosticCode::UnresolvedWikilink,
            DiagnosticCode::UnresolvedEmbed,
            DiagnosticCode::DeadMarkdownLink,
            DiagnosticCode::BrokenHeadingAnchor,
            DiagnosticCode::BrokenBlockReference,
        ]
    );
    assert_eq!(lenient.total_files_scanned, 2);
    assert_eq!(lenient.total_links_checked, 7);
    assert_eq!(lenient.error_count(), 0);
    assert_eq!(lenient.warning_count(), 5);
    assert_eq!(lenient.wanted_pages.len(), 3);
    assert_eq!(lenient.diagnostics[0].code.code_str(), "W001");
    assert_eq!(lenient.diagnostics[0].location.line_number, 2);
    let place = |i: usize| {
        let at = &lenient.diagnostics[i].location;
        (at.line_number, at.col_start, at.col_end)
    };
    assert_eq!(place(0), (2, 1, 8));
    assert_eq!(place(1), (3, 1, 9));
    assert_eq!(place(2), (4, 1, 15));

    let strict = engine.run(&docs, true);
    assert_eq!(strict.error_count(), 3);
    assert_eq!(strict.warning_count(), 2);
    assert_eq!(strict.diagnostics[2].severity, DiagnosticSeverity::Error);
    assert_eq!(strict.diagnostics[3].severity, DiagnosticSeverity::Warning);
    assert_eq!(strict.diagnostics[4].severity, DiagnosticSeverity::Warning);
}

#[test]
fn paths_are_written_in_a_line() {
    let edge = |relation: &str, target: &str| PathEdge {
        source: "A".to_string(),
        target: target.to_string(),
        relation: relation.to_string(),
        weight: 100,
    };
    let path = GraphPath {
        nodes: vec!["A".to_string(), "B".to_string(), "C".to_string()],
        edges: vec![edge("wikilink", "B"), edge("tag:#x", "C")],
        total_weight: 200,
        hop_count: 2,
    };
    assert_eq!(path.to_linearized_string(), "[[A]] --[wikilink]--> [[B]] --[tag:#x]--> [[C]]");
    let none = GraphPath { nodes: vec![], edges: vec![], total_weight: 0, hop_count: 0 };
    assert_eq!(none.to_linearized_string(), "");
}

#[test]
fn contexts_connect_their_seeds() {
    let docs = notes(&[
        ("a.md", "# A\nstart [[B]]"),
        ("b.md", "# B\nmiddle [[C]]"),
        ("c.md", "# C\nend"),
        ("d.md", "# D\nalone"),
    ]);
    let engine = GraphRagEngine::from_documents(&docs);
    let seeds = vec!["A".to_string(), "C".to_string()];
    let paths = engine.extract_paths(&seeds, 3, 10);
    assert!(!paths.is_empty());
    assert_eq!(paths[0].nodes, vec!["A", "B", "C"]);
    assert_eq!(paths[0].hop_count, 2);
    let tree = engine.extract_steiner_tree(&seeds).unwrap();
    assert_eq!(tree.terminal_nodes, vec!["A", "C"]);
    assert_eq!(tree.steiner_nodes, vec!["B"]);
    assert_eq!(tree.edges.len(), 2);
    let all = engine.extract_context(&seeds, 3, 10, true);
    assert_eq!(all.seeds, seeds);
    assert!(all.markdown_context.contains("[[A]] --[wikilink]--> [[B]]"));
    assert!(engine.extract_paths(&vec!["nobody".to_string()], 3, 10).is_empty());
    assert!(engine.extract_steiner_tree(&vec![]).is_none());
}

#[test]
fn rows_make_the_same_graph() {
    let docs = vec![
        DocRow {
            doc_id: "1".into(),
            path: "a.md".into(),
            title: "A".into(),
            word_count: 2,
            aliases: vec!["First".into()],
        },
        DocRow {
            doc_id: "2".into(),
            path: "b.md".into(),
            title: "B".into(),
            word_count: 3,
            aliases: vec![],
        },
    ];
    let tags = vec![
        TagRow { doc_id: "1".into(), tag: "#Shared".into() },
        TagRow { doc_id: "2".into(), tag: "shared".into() },
    ];
    let links = vec![LinkRow {
        source_doc_id: "2".into(),
        target_note: "first".into(),
        link_type: "embed".into(),
    }];
    let snippets = vec![SnippetRow { doc_id: "1".into(), content: "text".into() }];
    let engine = GraphRagEngine::from_rows(&docs, &tags, &links, &snippets);
    assert_eq!(engine.node_count(), 2);
    assert_eq!(engine.find("FIRST"), Some(0));
    let mut relations: Vec<&str> = engine.edges.iter().map(|e| e.relation.as_str()).collect();
    relations.sort();
    assert_eq!(relations, vec!["backlink", "embed", "tag:#shared", "tag:#shared"]);
    assert_eq!(engine.nodes[0].snippet.as_deref(), Some("text"));
}

#[test]
fn wanted_pages_of_a_report_are_ranked() {
    let docs = notes(&[("a.md", "# A\n[[X]] [[Y]] [[Y]]"), ("b.md", "# B\n[[Y]]")]);
    let mut engine = DiagnosticsEngine::new();
    for d in &docs {
        engine.index_document(d);
    }
    let report = engine.run(&docs, false);
    let ranked: Vec<(&str, usize, usize)> = report
        .wanted_pages
        .iter()
        .map(|w| (w.target.as_str(), w.reference_count, w.referencing_files.len()))
        .collect();
    assert_eq!(ranked, vec![("Y", 3, 2), ("X", 1, 1)]);
    assert_eq!(report.wanted_pages[0].occurrences.len(), 3);
}

#[test]
fn names_stay_known_when_more_is_indexed() {
    let docs = notes(&[
        ("a.md", "---\naliases: [First]\n---\n# A\n"),
        ("b.md", "---\naliases: [First]\n---\n# B\n"),
    ]);
    let mut engine = DiagnosticsEngine::new();
    engine.index_document(&docs[0]);
    assert!(engine.resolve_target(None, "First").is_some());
    engine.index_document(&docs[1]);
    assert!(engine.resolve_target(None, "First").is_some());
    assert!(engine.resolve_target(None, "A").is_some());
}

#[test]
fn ways_out_from_a_single_seed() {
    let docs = notes(&[
        ("a.md", "# A\n[[B]] [[C]]"),
        ("b.md", "# B\n[[C]]"),
        ("c.md", "# C\nend"),
    ]);
    let engine = GraphRagEngine::from_documents(&docs);
    let ways: Vec<String> = engine
        .extract_paths(&vec!["A".to_string()], 5, 10)
        .iter()
        .map(|p| p.to_linearized_string())
        .collect();
    assert_eq!(ways.len(), 3);
    assert!(ways.contains(&"[[A]] --[wikilink]--> [[B]]".to_string()));
    assert!(ways.contains(&"[[A]] --[wikilink]--> [[C]]".to_string()));
    assert!(ways.contains(&"[[A]] --[wikilink]--> [[B]] --[wikilink]--> [[C]]".to_string()));
    assert_eq!(engine.extract_paths(&vec!["A".to_string()], 1, 10).len(), 2);
    assert_eq!(engine.extract_paths(&vec!["A".to_string()], 5, 1).len(), 1);
}

#[test]
fn seeds_are_found_by_name_brackets_and_tag() {
    let docs = notes(&[
        ("a.md", "---\naliases: [First]\n---\n# A\n"),
        ("b.md", "# B\n#Topic\n"),
    ]);
    let engine = GraphRagEngine::from_documents(&docs);
    assert_eq!(engine.resolve_seed(" a "), Some(0));
    assert_eq!(engine.resolve_seed("FIRST"), Some(0));
    assert_eq!(engine.resolve_seed("[[B]]"), Some(1));
    assert_eq!(engine.resolve_seed("#topic"), Some(1));
    assert_eq!(engine.resolve_seed("none"), None);
}
