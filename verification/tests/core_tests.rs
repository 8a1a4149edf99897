use atlaswiki::diagnostics::DiagnosticsEngine;
use atlaswiki::graph::{KnowledgeGraph, Rank};
use atlaswiki::parser::MarkdownParser;
use atlaswiki::retrieval::{QueryClassifier, QueryIntent};
use atlaswiki::security::{MarkdownSanitizer, VaultRoot};

/// Centrality by repeated redistribution, with what dangling nodes hold spread evenly.
fn rank_notes(graph: &mut KnowledgeGraph, damping: f32, iterations: usize) {
    let n = graph.node_count();
    let mut ranks = vec![1.0f32 / n as f32; n];
    for _ in 0..iterations {
        let mut next = vec![(1.0 - damping) / n as f32; n];
        let loose: f32 = (0..n).filter(|&i| graph.out_degree(i) == 0).map(|i| ranks[i]).sum();
        for (i, r) in next.iter_mut().enumerate() {
            *r += damping * loose / n as f32;
            for s in graph.sources_of(i) {
                *r += damping * ranks[s] / graph.out_degree(s) as f32;
            }
        }
        ranks = next;
    }
    let shown: Vec<Rank> = ranks
        .iter()
        .map(|r| Rank { key: r.to_bits(), short: format!("{:.2}", r), long: format!("{:.4}", r) })
        .collect();
    graph.assign_ranks(&shown);
}

#[test]
fn test_security_vault_root_containment() {
    let vault_root = VaultRoot::new(Ok("/home/me/vault".to_string())).unwrap();

    // Normal safe file
    assert!(vault_root.lexical_sanitize_relative("Notes/Subfolder/NoteA.md").is_ok());

    // Path traversal attempt
    assert!(vault_root.lexical_sanitize_relative("../../../etc/passwd").is_err());
}

#[test]
fn test_markdown_sanitizer_xss_protection() {
    let dirty = "<script>alert('xss')</script>Hello **World**";
    let clean = MarkdownSanitizer::escape_html(dirty);
    assert!(!clean.contains("<script>"));
    assert!(clean.contains("&lt;script&gt;"));

    let safe_url = "https://example.com/page?query=1#anchor";
    assert!(MarkdownSanitizer::is_safe_url(safe_url));

    let bad_url = "javascript:alert(document.cookie)";
    assert!(!MarkdownSanitizer::is_safe_url(bad_url));
}

#[test]
fn test_knowledge_graph_pagerank_and_shortest_path() {
    let parser = MarkdownParser::new();

    // Note A -> Note B -> Note C
    // Note D (orphan)
    let note_a = parser.parse_file("A.md", "# Note A\nConnects to [[Note B]].");
    let note_b = parser.parse_file("B.md", "# Note B\nConnects to [[Note C]].");
    let note_c = parser.parse_file("C.md", "# Note C\nEnd of chain. Mentions [[Unwritten Note]].");
    let note_d = parser.parse_file("D.md", "# Note D\nStandalone orphan note.");

    let mut graph = KnowledgeGraph::from_documents(&vec![note_a, note_b, note_c, note_d]);

    // Verify Shortest Path A -> C: ["Note A", "Note B", "Note C"]
    let path = graph.shortest_path("Note A", "Note C");
    assert!(path.is_some());
    let path_nodes = path.unwrap();
    assert_eq!(path_nodes, vec!["Note A", "Note B", "Note C"]);

    // Shortest path between disconnected nodes A and D
    let disconnected_path = graph.shortest_path("Note A", "Note D");
    assert!(disconnected_path.is_none());

    // Orphans: Note D has in-degree 0 and out-degree 0
    let orphans = graph.get_orphans();
    assert_eq!(orphans.len(), 1);
    assert_eq!(orphans[0].title, "Note D");

    // Wanted / Dangling pages: "Unwritten Note" is referenced by Note C
    let wanted = graph.get_wanted_pages();
    assert!(!wanted.is_empty());
    assert_eq!(wanted[0].0, "Unwritten Note");
    assert_eq!(wanted[0].1, 1);

    // PageRank calculation
    rank_notes(&mut graph, 0.85, 50);
    assert!(graph.get_pagerank("Note B").long.parse::<f32>().unwrap() >= 0.0);
    assert!(graph.get_pagerank("Note C").long.parse::<f32>().unwrap() >= 0.0);
    assert!(graph.get_pagerank("Note C").key > graph.get_pagerank("Note B").key);

    // D3 JSON export
    let d3_json = graph.to_d3_json();
    assert!(!d3_json.nodes.is_empty());
    assert!(!d3_json.links.is_empty());
}

#[test]
fn test_diagnostics_engine_broken_links_and_typos() {
    let parser = MarkdownParser::new();
    let mut diagnostics = DiagnosticsEngine::new();

    let note_ml = parser.parse_file(
        "Machine Learning.md",
        "---\ntitle: Machine Learning\naliases: [ML]\n---\n# Overview\n\nContent here.\n\n# Algorithms\n\nSupervised learning.\n^algo-block\n",
    );

    let note_query = parser.parse_file(
        "AI Project.md",
        "# AI Project\n\nUsing [[Machine Learnin#Overview]] and [[Machine Learning#NonExistentHeading]] and [[Machine Learning#^algo-block]] and [[Machine Learning#^bad-block]].\nAlso references [[Ghost Note]].\n",
    );

    diagnostics.index_document(&note_ml);
    diagnostics.index_document(&note_query);

    let report = diagnostics.run(&vec![note_query], false);
    assert!(!report.diagnostics.is_empty());

    // 1. Ghost Note is unresolved
    let ghost = report.diagnostics.iter().find(|d| d.message.contains("Ghost Note"));
    assert!(ghost.is_some());

    // 2. Machine Learnin is a typo for Machine Learning
    let typo = report.diagnostics.iter().find(|d| d.message.contains("Machine Learnin"));
    assert!(typo.is_some());
    assert!(typo.unwrap().suggestion.is_some());
    assert_eq!(typo.unwrap().suggestion.as_deref(), Some("[[Machine Learning]]"));

    // 3. NonExistentHeading is a broken heading
    let bad_heading = report.diagnostics.iter().find(|d| d.message.contains("NonExistentHeading"));
    assert!(bad_heading.is_some());

    // 4. bad-block is a broken block id
    let bad_block = report.diagnostics.iter().find(|d| d.message.contains("bad-block"));
    assert!(bad_block.is_some());
}

#[test]
fn test_retrieval_query_classification() {
    assert_eq!(QueryClassifier::classify("fn compute_hash()").intent, QueryIntent::CodeSymbol);
    assert_eq!(QueryClassifier::classify("struct VaultConfig").intent, QueryIntent::CodeSymbol);
    assert_eq!(QueryClassifier::classify("what is the main idea behind page rank in graphs?").intent, QueryIntent::NaturalLanguage);
    assert_eq!(QueryClassifier::classify("hybrid search algorithm").intent, QueryIntent::BalancedHybrid);
}
