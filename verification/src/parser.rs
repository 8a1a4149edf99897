//! From the text of a note to its parsed form.

use crate::ast::{
    DocumentModel, Frontmatter, FrontmatterModel, LinkModel, LinkType, ParsedDocument,
};
use crate::frontmatter::{extract_frontmatter, extracted, lemma_block, lemma_lines_bound};
use crate::links::{
    attributes_are_told, collect_references, gives_link, giving_matches, giving_matches_are_found,
    lines_give_their_attributes, lines_give_their_links, lines_give_their_tags, link_matches,
    links_written, references_of, section_at, tags_are_told, tells_match, LineMatches, LineModel,
};
use crate::mask::{mask_code_and_math, mask_keeps_line_count, masked_text};
use crate::matching::{
    compile, matches_in, pattern_matches, pattern_of, MatchModel, FIELD_INLINE, FIELD_IN_BRACKETS,
    HEADING, MARKDOWN_LINK, TAG, WIKILINK,
};
use crate::paths::{file_stem, path_file_stem};
use crate::picking::lemma_picked;
use crate::sections::{
    build_sections, chunks_of, generate_chunks, headings_of, scan_headings, sections_of, slug_of,
    slugify, Found, Heading, HeadingModel,
};
use crate::text::{
    clone_opt, group_views, lines_of, opt_view, str_lines, str_trim, str_words, trim, views,
    words_of,
};
use vstd::prelude::*;

verus! {

/// The SHA-256 digest of the UTF-8 bytes of a text, in lower-case hexadecimal.
pub uninterp spec fn sha256_hex_of(text: Seq<char>) -> Seq<char>;

/// Calls `Sha256::digest` of the `sha2` crate and writes the digest in
/// hexadecimal: two digits for each of its 32 bytes.
#[verifier::external_body]
pub(crate) fn sha256_hex(text: &str) -> (r: String)
    ensures
        r@ == sha256_hex_of(text@),
        r@.len() == 64,
{
    format!("{:x}", <sha2::Sha256 as sha2::Digest>::digest(text.as_bytes()))
}

/// The first heading of level 1 from `i` on.
pub open spec fn first_h1(hs: Seq<HeadingModel>, i: int) -> Option<Seq<char>>
    decreases hs.len() - i,
{
    if i >= hs.len() {
        None
    } else if hs[i].level == 1 {
        Some(hs[i].title)
    } else {
        first_h1(hs, i + 1)
    }
}

/// The title that a note has by its file name.
pub open spec fn default_title(path: Seq<char>) -> Seq<char> {
    match file_stem(path) {
        Some(stem) => stem,
        None => "Untitled"@,
    }
}

/// The title of a note: that of its metadata, else its first heading of level
/// 1, else its file name.
pub open spec fn title_of(path: Seq<char>, fm: FrontmatterModel, hs: Seq<HeadingModel>) -> Seq<
    char,
> {
    match fm.title {
        Some(t) => t,
        None => match first_h1(hs, 0) {
            Some(t) => t,
            None => default_title(path),
        },
    }
}

/// What the outside passes over a note find: its metadata, body and line
/// offset, its digest, and what the patterns match in each line.
pub struct FindingsModel {
    pub frontmatter: FrontmatterModel,
    pub body: Seq<char>,
    pub offset: nat,
    pub hash: Seq<char>,
    pub headings: Seq<Seq<MatchModel>>,
    pub references: Seq<LineModel>,
}

/// The parsed note that the findings make.
pub open spec fn document_of(path: Seq<char>, content: Seq<char>, f: FindingsModel) -> DocumentModel {
    let lines = lines_of(f.body);
    let slug = slug_of(path);
    let hs = headings_of(lines, f.headings, f.offset);
    let sections = sections_of(slug, default_title(path), hs, lines, f.body, f.offset as int);
    let title = title_of(path, f.frontmatter, hs);
    let refs = references_of(
        f.frontmatter.tags,
        f.references,
        lines,
        sections,
        f.offset as int,
        f.references.len() as int,
    );
    DocumentModel {
        path,
        title,
        frontmatter: f.frontmatter,
        sections,
        links: refs.links,
        tags: refs.tags,
        chunks: chunks_of(slug, title, sections, f.body, f.offset as int),
        word_count: words_of(content).len(),
        content_hash: f.hash,
        attributes: refs.attributes,
    }
}

/// What the patterns of the note grammar match in a line of prose.
pub open spec fn line_matches(line: Seq<char>) -> LineModel {
    LineModel {
        wikilinks: pattern_matches(WIKILINK@, line),
        markdown_links: pattern_matches(MARKDOWN_LINK@, line),
        tags: pattern_matches(TAG@, line),
        bracket_fields: pattern_matches(FIELD_IN_BRACKETS@, line),
        inline_fields: pattern_matches(FIELD_INLINE@, line),
    }
}

/// The findings of a note. Headings are sought in the trimmed lines of the
/// body, everything else in its lines with code and math blanked.
pub open spec fn findings_of(content: Seq<char>) -> FindingsModel {
    let (frontmatter, body, offset) = extracted(content);
    FindingsModel {
        frontmatter,
        body,
        offset,
        hash: sha256_hex_of(content),
        headings: lines_of(body).map_values(|l: Seq<char>| pattern_matches(HEADING@, trim(l))),
        references: lines_of(masked_text(body)).map_values(|l: Seq<char>| line_matches(l)),
    }
}

/// The parsed form of a note.
pub open spec fn parsed(path: Seq<char>, content: Seq<char>) -> DocumentModel {
    document_of(path, content, findings_of(content))
}

/// What the outside passes over a note find.
#[derive(Debug)]
pub struct Findings {
    pub frontmatter: Frontmatter,
    pub body: String,
    pub offset: usize,
    pub hash: String,
    pub headings: Vec<Found>,
    pub references: Vec<LineMatches>,
}

impl View for Findings {
    type V = FindingsModel;

    open spec fn view(&self) -> FindingsModel {
        FindingsModel {
            frontmatter: self.frontmatter@,
            body: self.body@,
            offset: self.offset as nat,
            hash: self.hash@,
            headings: views(self.headings@),
            references: views(self.references@),
        }
    }
}

fn find_first_h1(headings: &Vec<Heading>) -> (r: Option<String>)
    ensures
        opt_view(r) == first_h1(views(headings@), 0),
{
    let ghost hs = views(headings@);
    let mut i: usize = 0;
    while i < headings.len()
        invariant
            i <= headings@.len(),
            hs == views(headings@),
            first_h1(hs, i as int) == first_h1(hs, 0),
        decreases headings.len() - i,
    {
        assert(hs[i as int] == headings@[i as int]@);
        if headings[i].level == 1 {
            return Some(headings[i].title.clone());
        }
        i += 1;
    }
    None
}

/// Puts a parsed note together from what was found in it.
pub fn build_document(path: &str, content: &str, f: Findings) -> (r: ParsedDocument)
    requires
        f.headings@.len() == lines_of(f.body@).len(),
        f.references@.len() == lines_of(f.body@).len(),
        f.offset + lines_of(f.body@).len() <= usize::MAX,
        f.offset < usize::MAX,
    ensures
        r@ == document_of(path@, content@, f@),
{
    let default = match path_file_stem(path) {
        Some(stem) => stem,
        None => "Untitled".to_owned(),
    };
    let lines = str_lines(f.body.as_str());
    assert(lines@.len() == views(lines@).len());
    let headings = scan_headings(&lines, &f.headings, f.offset);
    let slug = slugify(path);
    let sections = build_sections(
        slug.as_str(),
        default.as_str(),
        &headings,
        &lines,
        f.body.as_str(),
        f.offset,
    );
    let title = match clone_opt(&f.frontmatter.title) {
        Some(t) => t,
        None => match find_first_h1(&headings) {
            Some(t) => t,
            None => default,
        },
    };
    let refs = collect_references(
        &f.frontmatter.tags,
        &f.references,
        &lines,
        &sections,
        f.offset,
    );
    let chunks = generate_chunks(
        slug.as_str(),
        title.as_str(),
        &sections,
        f.body.as_str(),
        f.offset,
    );
    let word_count: usize = str_words(content).len();
    ParsedDocument {
        path: path.to_owned(),
        title,
        frontmatter: f.frontmatter,
        sections,
        links: refs.links,
        tags: refs.tags,
        chunks,
        word_count,
        content_hash: f.hash,
        attributes: refs.attributes,
    }
}

/// The patterns that a parser reads notes by.
pub struct GrammarModel {
    pub wikilink: Seq<char>,
    pub tag: Seq<char>,
    pub heading: Seq<char>,
    pub markdown_link: Seq<char>,
    pub dataview_bracket: Seq<char>,
    pub dataview_inline: Seq<char>,
}

/// The note grammar.
pub open spec fn note_grammar() -> GrammarModel {
    GrammarModel {
        wikilink: WIKILINK@,
        tag: TAG@,
        heading: HEADING@,
        markdown_link: MARKDOWN_LINK@,
        dataview_bracket: FIELD_IN_BRACKETS@,
        dataview_inline: FIELD_INLINE@,
    }
}

/// Parses notes by the note grammar.
pub struct MarkdownParser {
    wikilink_re: regex::Regex,
    tag_re: regex::Regex,
    heading_re: regex::Regex,
    markdown_link_re: regex::Regex,
    dataview_bracket_re: regex::Regex,
    dataview_inline_re: regex::Regex,
}

impl View for MarkdownParser {
    type V = GrammarModel;

    closed spec fn view(&self) -> GrammarModel {
        GrammarModel {
            wikilink: pattern_of(self.wikilink_re),
            tag: pattern_of(self.tag_re),
            heading: pattern_of(self.heading_re),
            markdown_link: pattern_of(self.markdown_link_re),
            dataview_bracket: pattern_of(self.dataview_bracket_re),
            dataview_inline: pattern_of(self.dataview_inline_re),
        }
    }
}

impl Default for MarkdownParser {
    fn default() -> (r: Self)
        ensures
            r@ == note_grammar(),
    {
        MarkdownParser::new()
    }
}

impl MarkdownParser {
    /// Each field holds the pattern it is named after.
    #[verifier::type_invariant]
    spec fn holds_grammar(&self) -> bool {
        self@ == note_grammar()
    }

    /// A parser for the note grammar: each field is compiled from its pattern.
    pub fn new() -> (r: Self)
        ensures
            r@ == note_grammar(),
    {
        MarkdownParser {
            wikilink_re: compile(WIKILINK).unwrap(),
            tag_re: compile(TAG).unwrap(),
            heading_re: compile(HEADING).unwrap(),
            markdown_link_re: compile(MARKDOWN_LINK).unwrap(),
            dataview_bracket_re: compile(FIELD_IN_BRACKETS).unwrap(),
            dataview_inline_re: compile(FIELD_INLINE).unwrap(),
        }
    }

    fn match_headings(&self, lines: &Vec<String>) -> (r: Vec<Found>)
        ensures
            views(r@) == views(lines@).map_values(
                |l: Seq<char>| pattern_matches(HEADING@, trim(l)),
            ),
    {
        broadcast use group_views;

        proof {
            use_type_invariant(self);
        }
        let ghost wanted = views(lines@).map_values(
            |l: Seq<char>| pattern_matches(HEADING@, trim(l)),
        );
        let mut out: Vec<Found> = Vec::new();
        let mut i: usize = 0;
        while i < lines.len()
            invariant
                i <= lines@.len(),
                pattern_of(self.heading_re) == HEADING@,
                wanted == views(lines@).map_values(
                    |l: Seq<char>| pattern_matches(HEADING@, trim(l)),
                ),
                views(out@) == wanted.take(i as int),
            decreases lines.len() - i,
        {
            let trimmed = str_trim(lines[i].as_str());
            out.push(Found { matches: matches_in(&self.heading_re, trimmed.as_str()) });
            i += 1;
            assert(wanted.take(i as int) =~= wanted.take(i as int - 1).push(wanted[i as int - 1]));
        }
        assert(wanted.take(i as int) =~= wanted);
        out
    }

    fn match_references(&self, lines: &Vec<String>) -> (r: Vec<LineMatches>)
        ensures
            views(r@) == views(lines@).map_values(|l: Seq<char>| line_matches(l)),
    {
        broadcast use group_views;

        proof {
            use_type_invariant(self);
        }
        let ghost wanted = views(lines@).map_values(|l: Seq<char>| line_matches(l));
        let mut out: Vec<LineMatches> = Vec::new();
        let mut i: usize = 0;
        while i < lines.len()
            invariant
                i <= lines@.len(),
                pattern_of(self.wikilink_re) == WIKILINK@,
                pattern_of(self.tag_re) == TAG@,
                pattern_of(self.markdown_link_re) == MARKDOWN_LINK@,
                pattern_of(self.dataview_bracket_re) == FIELD_IN_BRACKETS@,
                pattern_of(self.dataview_inline_re) == FIELD_INLINE@,
                wanted == views(lines@).map_values(|l: Seq<char>| line_matches(l)),
                views(out@) == wanted.take(i as int),
            decreases lines.len() - i,
        {
            let line = lines[i].as_str();
            let found = LineMatches {
                wikilinks: matches_in(&self.wikilink_re, line),
                markdown_links: matches_in(&self.markdown_link_re, line),
                tags: matches_in(&self.tag_re, line),
                bracket_fields: matches_in(&self.dataview_bracket_re, line),
                inline_fields: matches_in(&self.dataview_inline_re, line),
            };
            out.push(found);
            i += 1;
            assert(wanted.take(i as int) =~= wanted.take(i as int - 1).push(wanted[i as int - 1]));
        }
        assert(wanted.take(i as int) =~= wanted);
        out
    }

    /// Parses a note.
    pub fn parse_file(&self, path: &str, content: &str) -> (r: ParsedDocument)
        ensures
            r@ == parsed(path@, content@),
    {
        let (frontmatter, body, offset) = extract_frontmatter(content);
        let c = crate::text::chars_of(content);
        let size: usize = c.len();
        proof {
            lemma_block(content@);
            lemma_lines_bound(body@);
            mask_keeps_line_count(body@);
        }
        let lines = str_lines(body.as_str());
        let headings = self.match_headings(&lines);
        let masked = mask_code_and_math(body.as_str());
        let masked_lines = str_lines(masked.as_str());
        let references = self.match_references(&masked_lines);
        let hash = sha256_hex(content);
        assert(views(headings@).len() == headings@.len());
        assert(views(references@).len() == references@.len());
        build_document(
            path,
            content,
            Findings { frontmatter, body, offset, hash, headings, references },
        )
    }
}

/// The lines of a note in which links, tags and attributes are sought: those of its
/// body, with code and math blanked.
pub open spec fn prose_of(content: Seq<char>) -> Seq<Seq<char>> {
    lines_of(masked_text(extracted(content).1))
}

/// The pattern of a kind of links.
pub open spec fn link_pattern(markdown: bool) -> Seq<char> {
    if markdown {
        MARKDOWN_LINK@
    } else {
        WIKILINK@
    }
}

/// The line of the file on which a line of the body stands.
pub open spec fn file_line(content: Seq<char>, i: int) -> usize {
    (extracted(content).2 + i + 1) as usize
}

/// Every link that is written in the prose of a note is among its links, on its line. A
/// web address is a link only where it names a note's file.
pub proof fn written_links_are_parsed(
    path: Seq<char>,
    content: Seq<char>,
    i: int,
    m: MatchModel,
    markdown: bool,
)
    requires
        0 <= i < prose_of(content).len(),
        pattern_matches(link_pattern(markdown), prose_of(content)[i]).contains(m),
        gives_link(m, markdown),
    ensures
        exists|x: int|
            {
                &&& 0 <= x < parsed(path, content).links.len()
                &&& tells_match(#[trigger] parsed(path, content).links[x], m, markdown)
                &&& parsed(path, content).links[x].line_number == file_line(content, i)
            },
{
    let f = findings_of(content);
    let doc = parsed(path, content);
    let lines = lines_of(f.body);
    let n = f.references.len() as int;
    lines_give_their_links(
        f.frontmatter.tags,
        f.references,
        lines,
        doc.sections,
        f.offset as int,
        n,
        markdown,
    );
    giving_matches_are_found(f.references, n, markdown);
    let ms = giving_matches(f.references, n, markdown);
    let links = links_written(doc.links, markdown);
    assert(f.references[i] == line_matches(prose_of(content)[i]));
    assert(link_matches(f.references[i], markdown).contains(m));
    assert(ms.contains((i, m)));
    let y = choose|y: int| 0 <= y < ms.len() && ms[y] == (i, m);
    assert(tells_match(links[y], m, markdown));
    let p = |l: LinkModel| (l.link_type == LinkType::Markdown) == markdown;
    lemma_picked(doc.links, p);
    assert(links.contains(links[y]));
    let x = choose|x: int| 0 <= x < doc.links.len() && doc.links[x] == links[y];
    assert(tells_match(parsed(path, content).links[x], m, markdown));
}

/// Every link of a note is written in its prose: a match of the pattern of its kind
/// gives it. None comes of a web address that names no note's file.
pub proof fn parsed_links_are_written(path: Seq<char>, content: Seq<char>, x: int, markdown: bool)
    requires
        0 <= x < parsed(path, content).links.len(),
        markdown == (parsed(path, content).links[x].link_type == LinkType::Markdown),
    ensures
        exists|i: int, m: MatchModel|
            {
                &&& 0 <= i < prose_of(content).len()
                &&& #[trigger] pattern_matches(
                    link_pattern(markdown),
                    prose_of(content)[i],
                ).contains(m)
                &&& gives_link(m, markdown)
                &&& tells_match(parsed(path, content).links[x], m, markdown)
                &&& parsed(path, content).links[x].line_number == file_line(content, i)
                &&& parsed(path, content).links[x].source_section_id == section_at(
                    parsed(path, content).sections,
                    extracted(content).2 + i + 1,
                    0,
                )
            },
{
    let f = findings_of(content);
    let doc = parsed(path, content);
    let lines = lines_of(f.body);
    let n = f.references.len() as int;
    lines_give_their_links(
        f.frontmatter.tags,
        f.references,
        lines,
        doc.sections,
        f.offset as int,
        n,
        markdown,
    );
    giving_matches_are_found(f.references, n, markdown);
    let ms = giving_matches(f.references, n, markdown);
    let links = links_written(doc.links, markdown);
    let p = |l: LinkModel| (l.link_type == LinkType::Markdown) == markdown;
    lemma_picked(doc.links, p);
    assert(doc.links.contains(doc.links[x]));
    assert(p(doc.links[x]));
    assert(links.contains(doc.links[x]));
    let y = choose|y: int| 0 <= y < links.len() && links[y] == doc.links[x];
    let (i, m) = ms[y];
    assert(tells_match(links[y], m, markdown));
    assert(0 <= i < n);
    assert(f.references[i] == line_matches(prose_of(content)[i]));
    assert(pattern_matches(link_pattern(markdown), prose_of(content)[i]).contains(m));
}

/// A note has as many links of a kind as its prose has matches that give one.
pub proof fn each_link_is_parsed_once(path: Seq<char>, content: Seq<char>, markdown: bool)
    ensures
        parsed(path, content).links.filter(
            |l: LinkModel| (l.link_type == LinkType::Markdown) == markdown,
        ).len() == giving_matches(
            prose_of(content).map_values(|l: Seq<char>| line_matches(l)),
            prose_of(content).len() as int,
            markdown,
        ).len(),
{
    let f = findings_of(content);
    let doc = parsed(path, content);
    lines_give_their_links(
        f.frontmatter.tags,
        f.references,
        lines_of(f.body),
        doc.sections,
        f.offset as int,
        f.references.len() as int,
        markdown,
    );
}

/// The tags of a note are those of its metadata and those that are written in its
/// prose; its attributes are those that are written there.
pub proof fn written_tags_and_attributes_are_parsed(path: Seq<char>, content: Seq<char>)
    ensures
        tags_are_told(
            extracted(content).0.tags,
            prose_of(content).map_values(|l: Seq<char>| line_matches(l)),
            parsed(path, content).sections,
            extracted(content).2 as int,
            prose_of(content).len() as int,
            parsed(path, content).tags,
        ),
        attributes_are_told(
            prose_of(content).map_values(|l: Seq<char>| line_matches(l)),
            parsed(path, content).sections,
            extracted(content).2 as int,
            prose_of(content).len() as int,
            parsed(path, content).attributes,
        ),
{
    let f = findings_of(content);
    let doc = parsed(path, content);
    lines_give_their_tags(
        f.frontmatter.tags,
        f.references,
        lines_of(f.body),
        doc.sections,
        f.offset as int,
        f.references.len() as int,
    );
    lines_give_their_attributes(
        f.frontmatter.tags,
        f.references,
        lines_of(f.body),
        doc.sections,
        f.offset as int,
        f.references.len() as int,
    );
}

/// A note is named by its metadata; where that has no title, by its first heading of
/// level 1, wherever it stands among the headings; where there is none, by its file.
pub proof fn title_is_the_first_there_is(
    path: Seq<char>,
    fm: FrontmatterModel,
    hs: Seq<HeadingModel>,
)
    ensures
        fm.title is Some ==> title_of(path, fm, hs) == fm.title->0,
        forall|k: int|
            fm.title is None && 0 <= k < hs.len() && (#[trigger] hs[k]).level == 1 && (forall|j: int|
                0 <= j < k ==> (#[trigger] hs[j]).level != 1) ==> title_of(path, fm, hs)
                == hs[k].title,
        fm.title is None && (forall|j: int| 0 <= j < hs.len() ==> (#[trigger] hs[j]).level != 1) && (
        file_stem(path) matches Some(stem)) ==> title_of(path, fm, hs) == file_stem(path)->0,
        fm.title is None && (forall|j: int| 0 <= j < hs.len() ==> (#[trigger] hs[j]).level != 1)
            && file_stem(path) is None ==> title_of(path, fm, hs) == "Untitled"@,
{
    lemma_first_h1(hs, 0);
}

proof fn lemma_first_h1(hs: Seq<HeadingModel>, i: int)
    requires
        0 <= i <= hs.len(),
    ensures
        first_h1(hs, i) is None <==> forall|j: int|
            i <= j < hs.len() ==> (#[trigger] hs[j]).level != 1,
        first_h1(hs, i) matches Some(t) ==> exists|k: int|
            i <= k < hs.len() && (#[trigger] hs[k]).level == 1 && hs[k].title == t && forall|j: int|
                i <= j < k ==> (#[trigger] hs[j]).level != 1,
    decreases hs.len() - i,
{
    if i < hs.len() && hs[i].level != 1 {
        lemma_first_h1(hs, i + 1);
    }
}

/// A parsed note has its path, the digest of its whole text and the number of words of
/// its whole text, metadata and all.
pub proof fn note_is_told_as_a_whole(path: Seq<char>, content: Seq<char>)
    ensures
        parsed(path, content).path == path,
        parsed(path, content).content_hash == sha256_hex_of(content),
        parsed(path, content).word_count == words_of(content).len(),
        parsed(path, content).frontmatter == extracted(content).0,
        parsed(path, content).frontmatter.title matches Some(t) ==> parsed(path, content).title == t,
        parsed(path, content).chunks == chunks_of(
            slug_of(path),
            parsed(path, content).title,
            parsed(path, content).sections,
            extracted(content).1,
            extracted(content).2 as int,
        ),
{
}

} // verus!
