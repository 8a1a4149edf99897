use atlaswiki::frontmatter::extract_frontmatter;
use atlaswiki::mask::mask_code_and_math;
use atlaswiki::parser::MarkdownParser;
use atlaswiki::paths::{path_extension, path_file_name, path_file_stem};
use atlaswiki::sections::slugify;
use atlaswiki::text::{
    str_join, str_lines, str_lt, str_split, str_split_str, str_trim, str_words, to_decimal,
};

#[test]
fn texts_are_taken_apart_as_usual() {
    assert_eq!(str_trim(" \t é \u{3000}\n"), "é");
    assert_eq!(str_lines("a\r\nb\n\nc"), vec!["a", "b", "", "c"]);
    assert_eq!(str_lines("a\n"), vec!["a"]);
    assert_eq!(str_words("  one\ttwo \n three "), vec!["one", "two", "three"]);
    assert_eq!(str_split("a,,b", ','), vec!["a", "", "b"]);
    assert_eq!(str_split_str("a, b", ", "), vec!["a", "b"]);
    assert_eq!(str_join(&vec!["x".to_string(), "y".to_string()], "--"), "x--y");
    assert_eq!(to_decimal(0), "0");
    assert_eq!(to_decimal(18446744073709551615), "18446744073709551615");
    assert!(str_lt("a", "b") && str_lt("a", "aa") && !str_lt("b", "a"));
}

#[test]
fn slugs_hold_letters_numbers_and_single_hyphens() {
    assert_eq!(slugify("Hello,  World!"), "hello-world");
    assert_eq!(slugify("  Ünïcode & Straße "), "ünïcode-straße");
    assert_eq!(slugify("---"), "");
    assert_eq!(slugify("a--b"), "a-b");
    for text in ["Hello,  World!", "a--b", "", "  Ünïcode & Straße "] {
        assert_eq!(slugify(&slugify(text)), slugify(text));
    }
}

#[test]
fn masking_keeps_every_byte_in_place() {
    let text = "a `[[x]]` b\n```\n[[code]] é\n```\n$[[m]]$ and $$[[d]]$$ [[real]]\n";
    let masked = mask_code_and_math(text);
    assert_eq!(masked.len(), text.len());
    assert_eq!(masked.lines().count(), text.lines().count());
    assert!(!masked.contains("[[x]]") && !masked.contains("[[code]]"));
    assert!(!masked.contains("[[m]]") && !masked.contains("[[d]]"));
    assert_eq!(masked.find("[[real]]"), text.find("[[real]]"));
}

#[test]
fn prose_is_not_masked() {
    let prose = "Nothing here is code, nor is it mathematics: [[Link]] #tag\n";
    assert_eq!(mask_code_and_math(prose), prose);
}

#[test]
fn an_unclosed_fence_runs_to_the_end() {
    assert_eq!(mask_code_and_math("a\n~~~\n[[link]]\n"), "a\n   \n        \n");
}

/// What is left of a text when its code and mathematics are blanked.
fn seen(text: &str) -> String {
    mask_code_and_math(text).split_whitespace().collect::<Vec<_>>().join(" ")
}

#[test]
fn fences_may_be_indented() {
    assert_eq!(seen("Text\n\n  ```\n  [[Fake]]\n  ```\n[[Real]]\n"), "Text [[Real]]");
    assert_eq!(seen("- item\n\n    ```\n    [[Fake]]\n    ```\n[[Real]]\n"), "- item [[Real]]");
    assert_eq!(seen("- ```\n  [[Fake]]\n  ```\n[[Real]]\n"), "[[Real]]");
    assert_eq!(seen("1. ~~~\n   [[Fake]]\n   ~~~\n[[Real]]\n"), "[[Real]]");
    assert_eq!(seen("10 ~~~ 20\n[[Real]]\n"), "10 ~~~ 20 [[Real]]");
    assert_eq!(seen("> ```\n> [[Fake]]\n> ```\n> [[Real]]\n"), "> [[Real]]");
    assert_eq!(seen("> ```\n> [[Fake]]\n[[Real]]\n"), "[[Real]]");
}

#[test]
fn a_fence_is_closed_by_one_of_its_kind() {
    // Too short, of the other kind, followed by text, indented too far.
    assert_eq!(seen("````\n```\n[[Fake]]\n````\n[[Real]]\n"), "[[Real]]");
    assert_eq!(seen("```\n~~~\n[[Fake]]\n```\n[[Real]]\n"), "[[Real]]");
    assert_eq!(seen("```\n``` x\n[[Fake]]\n```\n[[Real]]\n"), "[[Real]]");
    assert_eq!(seen("```\n    ```\n[[Fake]]\n```\n[[Real]]\n"), "[[Real]]");
    assert_eq!(seen("```\r\n[[Fake]]\r\n````  \r\n[[Real]]\r\n"), "[[Real]]");
}

#[test]
fn code_spans_close_at_as_many_backticks() {
    assert_eq!(mask_code_and_math("a ``[[x]]`` b"), "a           b");
    assert_eq!(seen("``[[x]] ` [[y]]`` [[Real]]"), "[[Real]]");
    assert_eq!(seen("```[[x]]``` [[Real]]\n[[More]]\n"), "[[Real]] [[More]]");
    assert_eq!(seen("`` [[Real]] `[[x]]`"), "`` [[Real]]");
    assert_eq!(seen("` [[Real]]\n[[More]] `"), "` [[Real]] [[More]] `");
}

#[test]
fn fenced_blocks_hold_no_links_tags_or_headings() {
    let parser = MarkdownParser::new();
    let doc = parser.parse_file("i.md", "Text\n\n  ```\n  [[Fake]] #fake\n  # Fake\n  ```\n");
    assert!(doc.links.is_empty() && doc.tags.is_empty());
    let doc = parser.parse_file("j.md", "````\n```\n# Fake\n````\n# Real\n");
    let headings: Vec<&str> = doc.sections.iter().map(|s| s.heading.as_str()).collect();
    assert!(headings.contains(&"Real") && !headings.contains(&"Fake"));
}

#[test]
fn links_carry_their_columns() {
    let doc = MarkdownParser::new().parse_file("c.md", "[[A]] `é` and ![[B]]\n");
    let columns: Vec<(usize, usize)> = doc.links.iter().map(|l| (l.col_start, l.col_end)).collect();
    assert_eq!(columns, vec![(1, 5), (16, 21)]);
}

#[test]
fn paths_have_names_stems_and_extensions() {
    assert_eq!(path_file_name("a/b.md"), Some("b.md".to_string()));
    assert_eq!(path_file_stem("a/b.tar.gz"), Some("b.tar".to_string()));
    assert_eq!(path_extension("a/b.md"), Some("md".to_string()));
    assert_eq!(path_extension("a/.git"), None);
    assert_eq!(path_extension("a/b"), None);
}

#[test]
fn metadata_is_read_from_the_head_of_a_note() {
    let (fm, body, offset) = extract_frontmatter(
        "---\ntitle: T\ntags: one, two\nalias: A\ncount: 3\nok: true\n---\nBody\n",
    );
    assert_eq!(fm.title.as_deref(), Some("T"));
    assert_eq!(fm.tags, vec!["one", "two"]);
    assert_eq!(fm.aliases, vec!["A"]);
    let extra: Vec<(&str, &str)> =
        fm.extra.iter().map(|e| (e.key.as_str(), e.json.as_str())).collect();
    assert!(extra.contains(&("count", "3")) && extra.contains(&("ok", "true")));
    assert!(body.contains("Body"));
    assert!(offset > 0);
}

#[test]
fn a_note_without_metadata_is_all_body() {
    let (fm, body, offset) = extract_frontmatter("# Heading\ntext\n");
    assert_eq!(fm.title, None);
    assert!(fm.tags.is_empty() && fm.aliases.is_empty() && fm.extra.is_empty());
    assert_eq!(body, "# Heading\ntext\n");
    assert_eq!(offset, 0);
}

#[test]
fn colours_and_numbers_are_no_tags() {
    let parser = MarkdownParser::new();
    let doc = parser.parse_file(
        "css.md",
        "# Colours\ncolor: #ff0000 and #FFF but #ffx, #123 and #real/tag #real/tag\n",
    );
    let names: Vec<&str> = doc.tags.iter().map(|t| t.name.as_str()).collect();
    assert_eq!(names, vec!["ffx", "real/tag"]);
}

#[test]
fn the_digest_of_a_note_is_known() {
    let doc = MarkdownParser::new().parse_file("abc.md", "abc");
    assert_eq!(
        doc.content_hash,
        "ba7816bf8f01cfea414140de5dae2223b00361a396177a9cb410ff61f20015ad"
    );
    assert_eq!(doc.title, "abc");
    assert_eq!(doc.word_count, 1);
}

#[test]
fn attributes_are_found_in_text_and_brackets() {
    let doc = MarkdownParser::new().parse_file("a.md", "# A\n[rating:: 5] and\nstatus:: done\n");
    let fields: Vec<(&str, &str, usize)> = doc
        .attributes
        .iter()
        .map(|f| (f.key.as_str(), f.value.as_str(), f.line_number))
        .collect();
    assert!(fields.contains(&("rating", "5", 2)));
    assert!(fields.contains(&("status", "done", 3)));
}

#[test]
fn breadcrumbs_extend_those_of_the_parent() {
    let doc = MarkdownParser::new().parse_file("n.md", "# A\n## B\n### C\n## D\n");
    for s in &doc.sections {
        if let Some(parent) = &s.parent_id {
            let p = doc.sections.iter().find(|x| &x.id == parent).unwrap();
            let mut want = p.breadcrumbs.clone();
            want.push(s.heading.clone());
            assert_eq!(s.breadcrumbs, want);
        } else {
            assert_eq!(s.breadcrumbs, vec![s.heading.clone()]);
        }
    }
    assert_eq!(doc.sections.len(), 4);
}

#[test]
fn extra_keys_are_kept_once() {
    let (fm, _, _) = extract_frontmatter("---\nKey: 1\nkey: 2\nother: [a, 1]\n---\n");
    let mut keys: Vec<&str> = fm.extra.iter().map(|e| e.key.as_str()).collect();
    keys.sort();
    assert_eq!(keys, vec!["Key", "key", "other"]);
    let other = fm.extra.iter().find(|e| e.key == "other").unwrap();
    assert_eq!(other.json, "[\"a\",1]");
}

#[test]
fn tagged_metadata_is_not_looked_into() {
    let (fm, body, _) = extract_frontmatter("---\n!odd\ntitle: T\n---\nBody");
    assert_eq!(fm.title, None);
    assert_eq!(body, "Body");
    let (fm, _, _) = extract_frontmatter("---\ntags: !odd [a, b]\n---\n");
    assert!(fm.tags.is_empty());
}

#[test]
fn text_that_is_no_metadata_stays_in_the_body() {
    let text = "---\n: : [\n---\nBody";
    let (fm, body, offset) = extract_frontmatter(text);
    assert_eq!(fm.title, None);
    assert_eq!(body, text);
    assert_eq!(offset, 0);
}

#[test]
fn long_sections_are_cut_between_paragraphs() {
    let paragraph = "word ".repeat(200);
    let text = format!("# Top\n\n{paragraph}\n\n{paragraph}\n\n{paragraph}\n");
    let doc = MarkdownParser::new().parse_file("long.md", &text);
    assert_eq!(doc.chunks.len(), 3);
    for (k, chunk) in doc.chunks.iter().enumerate() {
        assert_eq!(chunk.chunk_id, format!("long-md::0::{k}"));
        assert_eq!(chunk.section_id.as_deref(), Some(doc.sections[0].id.as_str()));
        assert_eq!(chunk.breadcrumbs, "Top");
    }
    assert_eq!(doc.sections[0].id, "long-md::0#top");
}

#[test]
fn a_note_without_headings_is_one_section() {
    let doc = MarkdownParser::new().parse_file("dir/My Note.md", "just text\n");
    assert_eq!(doc.title, "My Note");
    assert_eq!(doc.sections.len(), 1);
    assert_eq!(doc.sections[0].id, "dir-my-note-md#overview");
    assert_eq!((doc.sections[0].line_start, doc.sections[0].line_end), (1, 1));
    assert_eq!(doc.chunks.len(), 1);
}
