use atlaswiki::graph::{KnowledgeGraph, Rank};
use atlaswiki::moc::{sanitize_topic_name, MocSynthesizer, NoteFile};
use atlaswiki::parser::MarkdownParser;
use atlaswiki::security::{
    DosGuards, MarkdownSanitizer, OnDisk, OpenEmbeds, SecurityError, VaultRoot, MAX_NOTE_SIZE,
};
use atlaswiki::synthesis::{update_synthesis_content, SYNTHESIS_BEGIN, SYNTHESIS_END};
use atlaswiki::taxonomy::{NoteSummary, TagTaxonomy};
use atlaswiki::watcher::{
    changed_document, deletion_event, inspect, is_known_hash, is_watchable_file, read_error_event,
    relative_path, settled_action, stored_event, DebounceState, Inspection, Manifest,
    PendingActionKind, SettledAction, VaultSyncEvent, VaultWatcherConfig,
};

#[test]
fn a_begin_marker_without_an_end_keeps_the_text_around_it() {
    let note = format!("before\n{SYNTHESIS_BEGIN}\nmine\n");
    let once = update_synthesis_content(&note, "B", None);
    assert_eq!(once, format!("before\n{SYNTHESIS_BEGIN}\nB\n{SYNTHESIS_END}\nmine\n"));
    assert_eq!(update_synthesis_content(&once, "B", None), once);
}

#[test]
fn a_later_body_takes_over() {
    let closed = format!("a\n{SYNTHESIS_BEGIN}\nold\n{SYNTHESIS_END}\nb\n");
    let open = format!("a\n{SYNTHESIS_BEGIN}\nb\n");
    for note in ["", "text\n\n", closed.as_str(), open.as_str()] {
        let first = update_synthesis_content(note, "one", Some("# H"));
        assert_eq!(
            update_synthesis_content(&first, "two", Some("# H")),
            update_synthesis_content(note, "two", Some("# H"))
        );
    }
}

#[test]
fn updates_are_idempotent_whatever_is_put_in() {
    let body = format!("one {SYNTHESIS_END} two");
    for (note, header) in [
        ("", None),
        ("text", None),
        ("", Some(format!("# H\n{SYNTHESIS_BEGIN}\nold\n{SYNTHESIS_END}\nrest"))),
        ("", Some(format!("# H\n{SYNTHESIS_BEGIN}"))),
    ] {
        let once = update_synthesis_content(note, &body, header.as_deref());
        assert_eq!(update_synthesis_content(&once, &body, header.as_deref()), once);
        assert!(once.contains("one") && once.contains("two"));
    }
}

#[test]
fn text_around_the_generated_part_stays() {
    let note = format!("before\n{SYNTHESIS_BEGIN}\nold\n{SYNTHESIS_END}\nafter\n");
    let once = update_synthesis_content(&note, "new", None);
    assert!(once.starts_with("before\n") && once.ends_with("\nafter\n"));
    assert!(once.contains("new") && !once.contains("old"));
    assert_eq!(update_synthesis_content(&once, "new", None), once);
}

#[test]
fn generated_parts_are_appended_where_there_is_none() {
    let once = update_synthesis_content("# Mine\n", "body", None);
    assert!(once.starts_with("# Mine\n"));
    assert!(once.contains(SYNTHESIS_BEGIN) && once.contains(SYNTHESIS_END));
    assert_eq!(update_synthesis_content(&once, "body", None), once);
}

#[test]
fn topics_make_titles_and_file_names() {
    assert_eq!(sanitize_topic_name("#ai"), ("MOC - AI".into(), "MOC - AI.md".into()));
    assert_eq!(
        sanitize_topic_name("ai/machine learning"),
        ("MOC - Ai - Machine learning".into(), "MOC - Ai - Machine learning.md".into())
    );
    assert_eq!(sanitize_topic_name(" élan:x ").0, "MOC - Élan - x");
}

#[test]
fn notes_are_sorted_into_the_taxonomy() {
    let note = |title: &str, key: u32| NoteSummary {
        title: title.to_string(),
        path: format!("{title}.md"),
        tags: vec![],
        word_count: 1,
        pagerank: Rank { key, short: "0.50".into(), long: "0.5000".into() },
        in_degree: 1,
        out_degree: 2,
    };
    let mut tree = TagTaxonomy::default();
    tree.insert("#b/c", &note("Low", 1));
    tree.insert("b/c", &note("High", 2));
    tree.insert("a", &note("Same B", 1));
    tree.insert("a", &note("Same A", 1));
    tree.sort_by_pagerank();
    let segments: Vec<&str> = tree.children.iter().map(|c| c.segment.as_str()).collect();
    assert_eq!(segments, vec!["a", "b"]);
    assert_eq!(tree.children[1].children[0].full_path, "b/c");
    let titles: Vec<&str> =
        tree.children[1].children[0].notes.iter().map(|n| n.title.as_str()).collect();
    assert_eq!(titles, vec!["High", "Low"]);
    let titles: Vec<&str> = tree.children[0].notes.iter().map(|n| n.title.as_str()).collect();
    assert_eq!(titles, vec!["Same A", "Same B"]);
}

#[test]
fn maps_are_written_into_the_notes_given() {
    let parser = MarkdownParser::new();
    let docs = vec![
        parser.parse_file("a.md", "# A\n#topic/sub [[B]]\n"),
        parser.parse_file("b.md", "# B\n#topic\n"),
        parser.parse_file("c.md", "# C\nalone\n"),
    ];
    let graph = KnowledgeGraph::from_documents(&docs);
    let maker = MocSynthesizer::new("/vault");
    let notes = maker.extract_note_summaries(&docs, &graph);
    assert_eq!(maker.discover_topics(&notes), vec!["topic"]);

    let mut files: Vec<NoteFile> = vec![];
    let dry = maker.generate_moc(None, &docs, &graph, &mut files, true);
    assert!(files.is_empty());
    assert_eq!(dry.len(), 1);
    assert_eq!(dry[0].note_count, 2);
    assert!(dry[0].content.is_some());

    let report = maker.generate_living_index(&docs, &graph, &mut files, false);
    assert_eq!(report.total_notes, 3);
    assert_eq!(report.total_orphans, 1);
    let names: Vec<&str> = files.iter().map(|f| f.name.as_str()).collect();
    assert_eq!(names, vec!["MOC - Topic.md", "Orphans.md", "Index.md"]);
    let first: Vec<String> = files.iter().map(|f| f.text.clone()).collect();
    maker.generate_living_index(&docs, &graph, &mut files, false);
    let second: Vec<String> = files.iter().map(|f| f.text.clone()).collect();
    assert_eq!(first, second);
}

fn vault() -> VaultRoot {
    VaultRoot::new(Ok("/v".to_string())).unwrap()
}

#[test]
fn paths_are_cleaned_or_refused() {
    let v = vault();
    assert_eq!(v.canonical_path(), "/v");
    assert_eq!(v.lexical_sanitize_relative("a/./b/../c.md").unwrap(), "a/c.md");
    assert_eq!(v.lexical_sanitize_relative("a\\b.md").unwrap(), "a/b.md");
    assert!(matches!(
        v.lexical_sanitize_relative("a/../../b"),
        Err(SecurityError::ParentTraversalAttempt)
    ));
    assert!(matches!(
        v.lexical_sanitize_relative("/etc/passwd"),
        Err(SecurityError::AbsolutePathEscape(_))
    ));
    assert!(matches!(
        v.lexical_sanitize_relative("C:/x"),
        Err(SecurityError::AbsolutePathEscape(_))
    ));
    assert!(matches!(
        v.lexical_sanitize_relative("a\0b"),
        Err(SecurityError::InvalidCharacters)
    ));
    assert!(VaultRoot::new(Err("gone".to_string())).is_err());
}

#[test]
fn resolved_paths_stay_within_the_vault() {
    let v = vault();
    let inside = OnDisk::At("/v/n.md".to_string());
    assert_eq!(v.resolve_within_vault("", "n.md", &inside).unwrap(), "/v/n.md");
    let outside = OnDisk::At("/vault2/n.md".to_string());
    assert!(matches!(
        v.resolve_within_vault("", "n.md", &outside),
        Err(SecurityError::SymlinkEscapesRoot { .. })
    ));
    let failed = OnDisk::Failed("broken".to_string());
    assert!(matches!(v.resolve_within_vault("", "n.md", &failed), Err(SecurityError::IoError(_))));
    assert_eq!(v.resolve_within_vault("d", "n.md", &OnDisk::Absent).unwrap(), "/v/d/n.md");
    assert!(v.resolve_within_vault("", "../x", &OnDisk::Absent).is_err());
}

#[test]
fn markup_is_made_harmless() {
    assert_eq!(
        MarkdownSanitizer::escape_html("<a href=\"x\">'&/"),
        "&lt;a href=&quot;x&quot;&gt;&#x27;&amp;&#x2F;"
    );
    assert_eq!(MarkdownSanitizer::safe_json_for_script("</s>&"), "\\u003c/s\\u003e\\u0026");
    for good in ["http://a", "HTTPS://a", "#top", "notes/a.md", "mailto://x"] {
        assert!(MarkdownSanitizer::is_safe_url(good), "{good}");
    }
    for bad in ["java\tscript:x", " JavaScript:x", "data:text", "vbscript:x", "file:///x", "foo:x"] {
        assert!(!MarkdownSanitizer::is_safe_url(bad), "{bad}");
    }
}

#[test]
fn embeds_end() {
    let guards = DosGuards::default();
    let load = |name: &str| if name == "a" { Some("text".to_string()) } else { None };
    let mut open = OpenEmbeds::new();
    assert_eq!(guards.expand_embeds_safe("a", &mut open, 0, &load).unwrap(), "text");
    assert_eq!(guards.expand_embeds_safe("b", &mut open, 0, &load).unwrap(), "");
    assert!(!open.holds("a"));
    open.add("a");
    assert_eq!(
        guards.expand_embeds_safe("a", &mut open, 0, &load).unwrap(),
        "<!-- [Cyclic embed detected for 'a'] -->"
    );
    let deep = guards.max_embed_depth + 1;
    assert_eq!(
        guards.expand_embeds_safe("a", &mut OpenEmbeds::new(), deep, &load).unwrap(),
        "<!-- [Embed depth limit reached for 'a'] -->"
    );
    assert!(guards.check_file_size(MAX_NOTE_SIZE).is_ok());
    let refused = guards.check_file_size(MAX_NOTE_SIZE + 1);
    assert!(matches!(refused, Err(SecurityError::FileTooLarge { .. })));
    assert!(!refused.unwrap_err().message().is_empty());
}

#[test]
fn events_settle_after_the_window() {
    let mut state = DebounceState::new(100);
    state.record_event("/v/a.md", PendingActionKind::Created, 0);
    state.record_event("/v/a.md", PendingActionKind::Modified, 50);
    assert!(state.drain_settled(120).is_empty());
    let settled = state.drain_settled(150);
    assert_eq!(settled.len(), 1);
    assert_eq!(settled[0].path, "/v/a.md");
    assert_eq!(settled[0].kind, PendingActionKind::Created);
    assert!(state.drain_settled(1000).is_empty());
}

#[test]
fn a_replaced_file_counts_as_changed() {
    let mut state = DebounceState::new(100);
    state.record_event("/v/a.md", PendingActionKind::Deleted, 0);
    state.record_event("/v/a.md", PendingActionKind::Created, 10);
    let settled = state.drain_settled(500);
    assert_eq!(settled.len(), 1);
    assert_eq!(settled[0].kind, PendingActionKind::Modified);
}

#[test]
fn only_notes_of_the_vault_are_watched() {
    let config = VaultWatcherConfig::default();
    assert_eq!((config.debounce_ms, config.tick_ms), (600, 50));
    let ignored = config.ignored_directories;
    assert!(is_watchable_file("/v/a.md", "/v", &ignored));
    assert!(is_watchable_file("/v/d/a.MARKDOWN", "/v", &ignored));
    assert!(!is_watchable_file("/v/a.txt", "/v", &ignored));
    assert!(!is_watchable_file("/v/.git/a.md", "/v", &ignored));
    assert!(!is_watchable_file("/w/a.md", "/v", &ignored));
    assert_eq!(relative_path("/v/d/a.md", "/v"), Some("d/a.md".to_string()));
    assert_eq!(relative_path("/w/a.md", "/v"), None);
}

#[test]
fn settled_files_are_inspected_or_dropped() {
    assert!(matches!(
        settled_action("/v/a.md", "/v", PendingActionKind::Deleted),
        SettledAction::Delete { rel_path } if rel_path == "a.md"
    ));
    assert!(matches!(
        settled_action("/v/a.md", "/v", PendingActionKind::Modified),
        SettledAction::Inspect { rel_path } if rel_path == "a.md"
    ));
    assert!(matches!(
        settled_action("/w/a.md", "/v", PendingActionKind::Created),
        SettledAction::Ignore
    ));
    let stored = Some(Manifest { hash: "h".into(), mtime_ms: 5, size_bytes: 9 });
    assert_eq!(inspect(None, &stored), Inspection::Gone);
    assert_eq!(inspect(Some((9, 5)), &stored), Inspection::Unchanged);
    assert_eq!(inspect(Some((9, 6)), &stored), Inspection::Read);
    assert_eq!(inspect(Some((9, 5)), &None), Inspection::Read);
    assert!(is_known_hash("h", &stored) && !is_known_hash("x", &stored));
}

#[test]
fn only_new_texts_are_stored_again() {
    let parser = MarkdownParser::new();
    let doc = changed_document(&parser, "a.md", "abc", &None).unwrap();
    let stored =
        Some(Manifest { hash: doc.content_hash.clone(), mtime_ms: 0, size_bytes: 0 });
    assert!(changed_document(&parser, "a.md", "abc", &stored).is_none());
    assert!(changed_document(&parser, "a.md", "abcd", &stored).is_some());
    assert!(matches!(
        stored_event("/v/a.md", "a.md", &doc, Ok(())),
        VaultSyncEvent::NoteIndexed { path, word_count: 1, .. } if path == "a.md"
    ));
    assert!(matches!(
        stored_event("/v/a.md", "a.md", &doc, Err("full".into())),
        VaultSyncEvent::SyncError { path, error }
            if path == "/v/a.md" && error == "Database transaction failed: full"
    ));
    assert!(matches!(
        deletion_event("/v/a.md", "a.md", Ok(())),
        VaultSyncEvent::NoteDeleted { path } if path == "a.md"
    ));
    assert!(matches!(
        deletion_event("/v/a.md", "a.md", Err("locked".into())),
        VaultSyncEvent::SyncError { error, .. } if error == "locked"
    ));
    assert!(matches!(
        read_error_event("/v/a.md", "denied"),
        VaultSyncEvent::SyncError { error, .. } if error == "Failed to read file: denied"
    ));
}
