use atlaswiki::graph::Rank;
use atlaswiki::synthesis::{update_synthesis_content, SYNTHESIS_BEGIN, SYNTHESIS_END};
use atlaswiki::taxonomy::{NoteSummary, TagTaxonomy};

fn rank(r: f32) -> Rank {
    Rank { key: r.to_bits(), short: format!("{:.2}", r), long: format!("{:.4}", r) }
}

#[test]
fn test_idempotent_replacement_preserves_user_edits() {
    let initial_user_file = r#"---
title: My Custom Index
---

# Welcome to My Vault!
This is my manually written introduction that should never be deleted.

<!-- ATLASWIKI:BEGIN_SYNTHESIS -->
Old generated content line 1
Old generated content line 2
<!-- ATLASWIKI:END_SYNTHESIS -->

## My Personal Scratchpad
- [ ] Read chapter 3
- [ ] Fix car
"#;

    let new_synthesis = "New synthesized MOC line 1\nNew synthesized MOC line 2";

    let updated = update_synthesis_content(initial_user_file, new_synthesis, None);

    // Verify user content preserved
    assert!(updated.contains("# Welcome to My Vault!"));
    assert!(updated.contains("This is my manually written introduction that should never be deleted."));
    assert!(updated.contains("## My Personal Scratchpad"));
    assert!(updated.contains("- [ ] Read chapter 3"));

    // Verify synthesis markers and new content present
    assert!(updated.contains(SYNTHESIS_BEGIN));
    assert!(updated.contains(SYNTHESIS_END));
    assert!(updated.contains("New synthesized MOC line 1"));
    assert!(!updated.contains("Old generated content line 1"));

    // Test idempotence: running again produces exact same output
    let updated_again = update_synthesis_content(&updated, new_synthesis, None);
    assert_eq!(updated, updated_again);
}

#[test]
fn test_empty_content_with_default_header() {
    let default_header = "# MOC - AI\n\n> Tag taxonomy MOC";
    let body = "- [[Machine Learning]]\n- [[Deep Learning]]";

    let generated = update_synthesis_content("", body, Some(default_header));

    assert!(generated.starts_with("# MOC - AI"));
    assert!(generated.contains(SYNTHESIS_BEGIN));
    assert!(generated.contains("- [[Machine Learning]]"));
    assert!(generated.contains(SYNTHESIS_END));

    // Re-updating preserves header and replaces body
    let new_body = "- [[Machine Learning]]\n- [[Deep Learning]]\n- [[Transformers]]";
    let regenerated = update_synthesis_content(&generated, new_body, Some(default_header));
    assert!(regenerated.contains("- [[Transformers]]"));
    assert!(regenerated.starts_with("# MOC - AI"));
}

#[test]
fn test_taxonomy_tree_insertion_and_ordering() {
    let mut taxonomy = TagTaxonomy::default();

    let n1 = NoteSummary {
        title: "Supervised Learning".to_string(),
        path: "ML/Supervised.md".to_string(),
        tags: vec!["ai/ml".to_string()],
        word_count: 500,
        pagerank: rank(0.8),
        in_degree: 5,
        out_degree: 2,
    };

    let n2 = NoteSummary {
        title: "Deep Learning".to_string(),
        path: "ML/Deep.md".to_string(),
        tags: vec!["ai/ml".to_string()],
        word_count: 800,
        pagerank: rank(0.95), // Higher pagerank should sort first
        in_degree: 10,
        out_degree: 4,
    };

    let n3 = NoteSummary {
        title: "Transformers".to_string(),
        path: "NLP/Transformers.md".to_string(),
        tags: vec!["ai/nlp".to_string()],
        word_count: 600,
        pagerank: rank(0.7),
        in_degree: 3,
        out_degree: 1,
    };

    taxonomy.insert("ai/ml", &n1);
    taxonomy.insert("ai/ml", &n2);
    taxonomy.insert("ai/nlp", &n3);
    taxonomy.sort_by_pagerank();

    let mut out = String::new();
    taxonomy.render_markdown(1, &mut out);

    // Verify hierarchy rendered
    assert!(out.contains("### #ai"));
    assert!(out.contains("#### #ai/ml"));
    assert!(out.contains("#### #ai/nlp"));

    // In ai/ml, Deep Learning (PR: 0.95) must appear before Supervised Learning (PR: 0.80)
    let pos_deep = out.find("[[Deep Learning]]").unwrap();
    let pos_supervised = out.find("[[Supervised Learning]]").unwrap();
    assert!(pos_deep < pos_supervised);
}
