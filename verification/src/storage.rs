//! What is stored of a vault: the rows of its tables, and the bytes of
//! embeddings.

use crate::ast::{AstLink, ChunkModel, LinkModel, ParsedDocument, SectionModel, TagModel};
use crate::rag_graph::relation_of;
use crate::text::{
    clone_opt, find_from, group_views, holds_str, join, lemma_find_from, occurs_at, opt_view,
    split_on, split_str, str_split, str_split_str, str_trim, str_trim_start_char, trim,
    trim_start_char, views,
};
use vstd::prelude::*;

verus! {

// ---------------------------------------------------------------------------
// Records
// ---------------------------------------------------------------------------

/// Why stored data cannot be used.
#[derive(Debug, PartialEq, Eq)]
pub enum StorageError {
    InvalidEmbeddingLength(usize),
    DocumentNotFound(String),
}

impl StorageError {
    /// The error in words.
    pub fn message(&self) -> (r: String)
        ensures
            r@ == match *self {
                StorageError::InvalidEmbeddingLength(n) =>
                    "Invalid embedding byte length: expected multiple of 4, got "@
                    + crate::text::decimal(n as nat),
                StorageError::DocumentNotFound(name) => "Document not found: "@ + name@,
            },
    {
        match self {
            StorageError::InvalidEmbeddingLength(n) => {
                let mut s =
                    "Invalid embedding byte length: expected multiple of 4, got ".to_owned();
                crate::text::push_decimal(&mut s, *n);
                s
            },
            StorageError::DocumentNotFound(name) => {
                let mut s = "Document not found: ".to_owned();
                s.append(name.as_str());
                s
            },
        }
    }
}

/// What the index of a vault holds.
#[derive(Debug, Clone, Copy, PartialEq, Eq, Structural)]
pub struct VaultStats {
    pub total_documents: usize,
    pub total_sections: usize,
    pub total_links: usize,
    pub total_tags: usize,
    pub total_chunks: usize,
    pub total_embeddings: usize,
    pub total_words: usize,
}

impl VaultStats {
    /// The statistics of an index that could not be read.
    pub fn empty() -> (r: Self)
        ensures
            r == (VaultStats {
                total_documents: 0,
                total_sections: 0,
                total_links: 0,
                total_tags: 0,
                total_chunks: 0,
                total_embeddings: 0,
                total_words: 0,
            }),
    {
        VaultStats {
            total_documents: 0,
            total_sections: 0,
            total_links: 0,
            total_tags: 0,
            total_chunks: 0,
            total_embeddings: 0,
            total_words: 0,
        }
    }
}

/// A stored link to a note, with the note it comes from.
#[derive(Debug)]
pub struct BacklinkRecord {
    pub source_doc_id: String,
    pub source_path: String,
    pub source_title: String,
    pub line_number: usize,
    pub link_type: String,
    pub target_heading: Option<String>,
    pub target_block: Option<String>,
    pub alias: Option<String>,
    pub snippet: Option<String>,
}

/// A target that no stored note has.
#[derive(Debug)]
pub struct UnresolvedLinkRecord {
    pub target_note: String,
    pub reference_count: usize,
    pub source_notes: Vec<String>,
}

/// A stored note.
#[derive(Debug)]
pub struct DocumentRecord {
    pub doc_id: String,
    pub path: String,
    pub title: String,
    pub frontmatter_json: String,
    pub word_count: usize,
    pub mtime: u64,
    pub hash: String,
}

/// A stored section.
#[derive(Debug)]
pub struct SectionRecord {
    pub section_id: String,
    pub doc_id: String,
    pub heading: String,
    pub level: usize,
    pub parent_id: Option<String>,
    pub breadcrumbs: Vec<String>,
    pub line_start: usize,
    pub line_end: usize,
    pub content: String,
}

/// A stored chunk.
#[derive(Debug)]
pub struct ChunkRecord {
    pub chunk_id: String,
    pub doc_id: String,
    pub section_id: String,
    pub title: String,
    pub breadcrumbs: Vec<String>,
    pub line_start: usize,
    pub line_end: usize,
    pub content: String,
}

/// A stored link from a note.
#[derive(Debug)]
pub struct LinkRecord {
    pub source_doc_id: String,
    pub target_note: String,
    pub target_heading: Option<String>,
    pub target_block: Option<String>,
    pub alias: Option<String>,
    pub link_type: String,
    pub line_number: usize,
    pub context_snippet: Option<String>,
}

// ---------------------------------------------------------------------------
// The rows of a note
// ---------------------------------------------------------------------------

/// A list of texts as JSON text.
pub uninterp spec fn json_list(items: Seq<Seq<char>>) -> Seq<char>;

/// The list of texts that a JSON text holds, where it holds one.
pub uninterp spec fn json_strings(text: Seq<char>) -> Option<Seq<Seq<char>>>;

/// Calls `serde_json::to_string` on a list of strings, which always succeeds. The
/// result is a function of the texts, and reads back as these texts.
#[verifier::external_body]
pub(crate) fn json_of_strings(items: &Vec<String>) -> (r: String)
    ensures
        r@ == json_list(views(items@)),
        json_strings(r@) == Some(views(items@)),
{
    serde_json::to_string(items).unwrap_or_default()
}

/// Calls `serde_json::from_str` for a list of strings. The result is a function of the
/// text. Which texts hold such a list is not stated here.
#[verifier::external_body]
fn strings_of_json(text: &str) -> (r: Option<Vec<String>>)
    ensures
        match r {
            Some(v) => json_strings(text@) == Some(views(v@)),
            None => json_strings(text@) is None,
        },
{
    serde_json::from_str::<Vec<String>>(text).ok()
}

/// The breadcrumbs of a section from the text they are stored in; none where it holds no
/// list.
pub fn stored_breadcrumbs(raw: &str) -> (r: Vec<String>)
    ensures
        views(r@) == match json_strings(raw@) {
            Some(v) => v,
            None => Seq::<Seq<char>>::empty(),
        },
{
    broadcast use group_views;

    match strings_of_json(raw) {
        Some(v) => v,
        None => Vec::new(),
    }
}

/// The breadcrumbs of a chunk from the line they are stored in.
pub fn chunk_breadcrumbs(raw: &str) -> (r: Vec<String>)
    ensures
        views(r@) == split_str(raw@, " > "@),
{
    proof {
        reveal_strlit(" > ");
    }
    str_split_str(raw, " > ")
}

proof fn lemma_join_front(parts: Seq<Seq<char>>, sep: Seq<char>)
    requires
        parts.len() > 1,
    ensures
        join(parts, sep) == parts[0] + sep + join(parts.skip(1), sep),
    decreases parts.len(),
{
    let rest = parts.skip(1);
    if parts.len() == 2 {
        assert(join(parts.drop_last(), sep) == parts[0]);
        assert(join(rest, sep) == parts[1]);
    } else {
        lemma_join_front(parts.drop_last(), sep);
        assert(parts.drop_last().skip(1) =~= rest.drop_last());
        assert(join(rest, sep) == join(rest.drop_last(), sep) + sep + rest.last());
        assert(join(parts, sep) =~= parts[0] + sep + join(rest, sep));
    }
}

/// The breadcrumbs of a chunk read back as they were, as long as none of them holds the
/// mark that parts them.
pub proof fn chunk_breadcrumbs_read_back(crumbs: Seq<Seq<char>>)
    requires
        crumbs.len() > 0,
        forall|i: int| 0 <= i < crumbs.len() ==> !(#[trigger] crumbs[i]).contains('>'),
    ensures
        split_str(join(crumbs, " > "@), " > "@) == crumbs,
    decreases crumbs.len(),
{
    reveal_strlit(" > ");
    let sep = " > "@;
    let line = join(crumbs, sep);
    let first = crumbs[0];
    let n = first.len() as int;
    assert(!first.contains('>'));
    lemma_find_from(line, sep, 0);
    if crumbs.len() == 1 {
        assert forall|j: int| !occurs_at(line, sep, j) by {
            if occurs_at(line, sep, j) {
                assert(line.subrange(j, j + 3)[1] == sep[1]);
                assert(line[j + 1] == '>');
                assert(first.contains('>'));
            }
        }
        assert(crumbs =~= seq![line]);
    } else {
        let rest = crumbs.skip(1);
        lemma_join_front(crumbs, sep);
        assert(line.subrange(n, n + 3) =~= sep);
        assert(occurs_at(line, sep, n));
        assert forall|j: int| 0 <= j < n implies !occurs_at(line, sep, j) by {
            if occurs_at(line, sep, j) {
                assert(line.subrange(j, j + 3)[1] == sep[1]);
                assert(line[j + 1] == '>');
                if j + 1 < n {
                    assert(first[j + 1] == '>');
                } else {
                    assert(line[n] == sep[0]);
                }
            }
        }
        assert(find_from(line, sep, 0) == Some(n));
        assert(line.take(n) =~= first);
        assert(line.skip(n + 3) =~= join(rest, sep));
        assert forall|i: int| 0 <= i < rest.len() implies !(#[trigger] rest[i]).contains('>') by {
            assert(!crumbs[i + 1].contains('>'));
        }
        chunk_breadcrumbs_read_back(rest);
        assert(crumbs =~= seq![first] + rest);
    }
}

/// The row of a note.
#[derive(Debug)]
pub struct NoteRow {
    pub doc_id: String,
    pub path: String,
    pub title: String,
    pub word_count: i64,
    pub mtime: i64,
    pub file_size: i64,
    pub hash: String,
}

/// The row of a section.
#[derive(Debug)]
pub struct SectionRow {
    pub section_id: String,
    pub heading: String,
    pub level: i32,
    pub parent_id: Option<String>,
    pub breadcrumbs_json: String,
    pub line_start: i64,
    pub line_end: i64,
    pub content: String,
}

/// The row of a link.
#[derive(Debug)]
pub struct OutlinkRow {
    pub target_note: String,
    pub target_heading: Option<String>,
    pub target_block: Option<String>,
    pub alias: Option<String>,
    pub link_type: String,
    pub line_number: i64,
    pub context_snippet: Option<String>,
    pub source_section_id: Option<String>,
}

/// The row of a tag.
#[derive(Debug)]
pub struct TaggingRow {
    pub tag: String,
    pub section_id: Option<String>,
    pub line_number: i64,
}

/// The row of a chunk.
#[derive(Debug)]
pub struct ChunkRow {
    pub chunk_id: String,
    pub section_id: Option<String>,
    pub title: String,
    pub breadcrumbs: String,
    pub line_start: i64,
    pub line_end: i64,
    pub content: String,
}

/// All rows of a note.
#[derive(Debug)]
pub struct NoteRows {
    pub note: NoteRow,
    pub sections: Vec<SectionRow>,
    pub links: Vec<OutlinkRow>,
    pub tags: Vec<TaggingRow>,
    pub chunks: Vec<ChunkRow>,
}

/// Whether a row says what the section says; its breadcrumbs read back as they were.
pub open spec fn is_section_row(r: SectionRow, s: SectionModel) -> bool {
    &&& r.section_id@ == s.id
    &&& r.heading@ == s.heading
    &&& r.level == s.level
    &&& opt_view(r.parent_id) == s.parent_id
    &&& r.breadcrumbs_json@ == json_list(s.breadcrumbs)
    &&& json_strings(r.breadcrumbs_json@) == Some(s.breadcrumbs)
    &&& r.line_start == s.line_start as i64
    &&& r.line_end == s.line_end as i64
    &&& r.content@ == s.content
}

/// Whether a row says what the link says.
pub open spec fn is_link_row(r: OutlinkRow, l: LinkModel) -> bool {
    &&& r.target_note@ == l.target_note
    &&& opt_view(r.target_heading) == l.target_heading
    &&& opt_view(r.target_block) == l.target_block
    &&& opt_view(r.alias) == l.alias
    &&& r.link_type@ == relation_of(l.link_type)
    &&& r.line_number == l.line_number as i64
    &&& opt_view(r.context_snippet) == l.context_snippet
    &&& opt_view(r.source_section_id) == l.source_section_id
}

/// Whether a row says what the tag says.
pub open spec fn is_tag_row(r: TaggingRow, t: TagModel) -> bool {
    &&& r.tag@ == t.name
    &&& opt_view(r.section_id) == t.section_id
    &&& r.line_number == t.line_number as i64
}

/// Whether a row says what the chunk says.
pub open spec fn is_chunk_row(r: ChunkRow, c: ChunkModel) -> bool {
    &&& r.chunk_id@ == c.chunk_id
    &&& opt_view(r.section_id) == c.section_id
    &&& r.title@ == c.title
    &&& r.breadcrumbs@ == c.breadcrumbs
    &&& r.line_start == c.line_start as i64
    &&& r.line_end == c.line_end as i64
    &&& r.content@ == c.content
}

/// How a kind of link is stored.
pub fn link_type_name(link: &AstLink) -> (r: &'static str)
    ensures
        r@ == relation_of(link.link_type),
{
    match link.link_type {
        crate::ast::LinkType::Wikilink => "wikilink",
        crate::ast::LinkType::Embed => "embed",
        crate::ast::LinkType::Markdown => "markdown",
    }
}

/// The rows of a note: one for each of its sections, links, tags and chunks.
pub fn rows_of(doc: &ParsedDocument, doc_id: &str, rel_path: &str, mtime_ms: u64, file_size: u64)
    -> (r: NoteRows)
    ensures
        r.note.doc_id@ == doc_id@,
        r.note.path@ == rel_path@,
        r.note.title@ == doc.title@,
        r.note.word_count == doc.word_count as i64,
        r.note.mtime == mtime_ms as i64,
        r.note.file_size == file_size as i64,
        r.note.hash@ == doc.content_hash@,
        r.sections@.len() == doc.sections@.len(),
        forall|i: int|
            0 <= i < doc.sections@.len() ==> is_section_row(
                #[trigger] r.sections@[i],
                doc.sections@[i]@,
            ),
        r.links@.len() == doc.links@.len(),
        forall|i: int|
            0 <= i < doc.links@.len() ==> is_link_row(#[trigger] r.links@[i], doc.links@[i]@),
        r.tags@.len() == doc.tags@.len(),
        forall|i: int|
            0 <= i < doc.tags@.len() ==> is_tag_row(#[trigger] r.tags@[i], doc.tags@[i]@),
        r.chunks@.len() == doc.chunks@.len(),
        forall|i: int|
            0 <= i < doc.chunks@.len() ==> is_chunk_row(#[trigger] r.chunks@[i], doc.chunks@[i]@),
{
    let note = NoteRow {
        doc_id: doc_id.to_owned(),
        path: rel_path.to_owned(),
        title: doc.title.clone(),
        word_count: doc.word_count as i64,
        mtime: mtime_ms as i64,
        file_size: file_size as i64,
        hash: doc.content_hash.clone(),
    };
    let mut sections: Vec<SectionRow> = Vec::new();
    let mut i: usize = 0;
    while i < doc.sections.len()
        invariant
            i <= doc.sections@.len(),
            sections@.len() == i,
            forall|k: int|
                0 <= k < i ==> is_section_row(#[trigger] sections@[k], doc.sections@[k]@),
        decreases doc.sections.len() - i,
    {
        let s = &doc.sections[i];
        sections.push(
            SectionRow {
                section_id: s.id.clone(),
                heading: s.heading.clone(),
                level: s.level as i32,
                parent_id: clone_opt(&s.parent_id),
                breadcrumbs_json: json_of_strings(&s.breadcrumbs),
                line_start: s.line_start as i64,
                line_end: s.line_end as i64,
                content: s.content.clone(),
            },
        );
        i += 1;
    }
    let mut links: Vec<OutlinkRow> = Vec::new();
    let mut j: usize = 0;
    while j < doc.links.len()
        invariant
            j <= doc.links@.len(),
            links@.len() == j,
            forall|k: int| 0 <= k < j ==> is_link_row(#[trigger] links@[k], doc.links@[k]@),
        decreases doc.links.len() - j,
    {
        let l = &doc.links[j];
        links.push(
            OutlinkRow {
                target_note: l.target_note.clone(),
                target_heading: clone_opt(&l.target_heading),
                target_block: clone_opt(&l.target_block),
                alias: clone_opt(&l.alias),
                link_type: link_type_name(l).to_owned(),
                line_number: l.line_number as i64,
                context_snippet: clone_opt(&l.context_snippet),
                source_section_id: clone_opt(&l.source_section_id),
            },
        );
        j += 1;
    }
    let mut tags: Vec<TaggingRow> = Vec::new();
    let mut t: usize = 0;
    while t < doc.tags.len()
        invariant
            t <= doc.tags@.len(),
            tags@.len() == t,
            forall|k: int| 0 <= k < t ==> is_tag_row(#[trigger] tags@[k], doc.tags@[k]@),
        decreases doc.tags.len() - t,
    {
        let tag = &doc.tags[t];
        tags.push(
            TaggingRow {
                tag: tag.name.clone(),
                section_id: clone_opt(&tag.section_id),
                line_number: tag.line_number as i64,
            },
        );
        t += 1;
    }
    let mut chunks: Vec<ChunkRow> = Vec::new();
    let mut c: usize = 0;
    while c < doc.chunks.len()
        invariant
            c <= doc.chunks@.len(),
            chunks@.len() == c,
            forall|k: int| 0 <= k < c ==> is_chunk_row(#[trigger] chunks@[k], doc.chunks@[k]@),
        decreases doc.chunks.len() - c,
    {
        let chunk = &doc.chunks[c];
        chunks.push(
            ChunkRow {
                chunk_id: chunk.chunk_id.clone(),
                section_id: clone_opt(&chunk.section_id),
                title: chunk.title.clone(),
                breadcrumbs: chunk.breadcrumbs.clone(),
                line_start: chunk.line_start as i64,
                line_end: chunk.line_end as i64,
                content: chunk.content.clone(),
            },
        );
        c += 1;
    }
    NoteRows { note, sections, links, tags, chunks }
}

// ---------------------------------------------------------------------------
// Embeddings
// ---------------------------------------------------------------------------

/// The number that four bytes make, the lowest first.
pub open spec fn word_of(b: Seq<u8>, i: int) -> u32 {
    (b[4 * i] + 256 * b[4 * i + 1] + 65536 * b[4 * i + 2] + 16777216 * b[4 * i + 3]) as u32
}

/// The numbers that bytes make, four for each; what is left over is dropped.
pub open spec fn words_of_bytes(b: Seq<u8>) -> Seq<u32> {
    Seq::new(b.len() / 4, |i: int| word_of(b, i))
}

/// The four bytes of a number, the lowest first.
pub open spec fn bytes_of(w: u32) -> Seq<u8> {
    seq![
        (w % 256) as u8,
        ((w / 256) % 256) as u8,
        ((w / 65536) % 256) as u8,
        ((w / 16777216) % 256) as u8,
    ]
}

/// The bytes of these numbers.
pub open spec fn all_bytes(ws: Seq<u32>) -> Seq<u8>
    decreases ws.len(),
{
    if ws.len() == 0 {
        Seq::empty()
    } else {
        all_bytes(ws.drop_last()) + bytes_of(ws.last())
    }
}

/// An embedding as it is stored: four bytes for the bits of each component.
pub fn embedding_to_bytes(bits: &Vec<u32>) -> (r: Vec<u8>)
    ensures
        r@ == all_bytes(bits@),
{
    let mut out: Vec<u8> = Vec::new();
    let mut i: usize = 0;
    while i < bits.len()
        invariant
            i <= bits@.len(),
            out@ == all_bytes(bits@.take(i as int)),
        decreases bits.len() - i,
    {
        assert(bits@.take(i as int + 1).drop_last() =~= bits@.take(i as int));
        let w: u32 = bits[i];
        let ghost before = out@;
        out.push((w % 256) as u8);
        out.push(((w / 256) % 256) as u8);
        out.push(((w / 65536) % 256) as u8);
        out.push(((w / 16777216) % 256) as u8);
        assert(out@ =~= before + bytes_of(w));
        i += 1;
    }
    assert(bits@.take(i as int) =~= bits@);
    out
}

/// The bits of the components of a stored embedding. Its length must be a
/// multiple of four.
pub fn bytes_to_embedding(bytes: &Vec<u8>) -> (r: Result<Vec<u32>, StorageError>)
    ensures
        match r {
            Ok(bits) => bytes@.len() % 4 == 0 && bits@ == words_of_bytes(bytes@),
            Err(StorageError::InvalidEmbeddingLength(n)) => bytes@.len() % 4 != 0 && n
                == bytes@.len(),
            Err(_) => false,
        },
{
    let n: usize = bytes.len();
    if n % 4 != 0 {
        return Err(StorageError::InvalidEmbeddingLength(n));
    }
    Ok(whole_components(bytes))
}

/// The bits of the components of a stored embedding, where it has this many.
pub fn embedding_of_size(bytes: &Vec<u8>, size: usize) -> (r: Option<Vec<u32>>)
    ensures
        match r {
            Some(bits) => bytes@.len() == 4 * size && bits@ == words_of_bytes(bytes@),
            None => bytes@.len() != 4 * size,
        },
{
    let n: usize = bytes.len();
    if n % 4 == 0 && n / 4 == size {
        Some(whole_components(bytes))
    } else {
        None
    }
}

/// The bits of the components of a stored embedding; bytes that make no whole component
/// are dropped.
pub fn whole_components(bytes: &Vec<u8>) -> (r: Vec<u32>)
    ensures
        r@ == words_of_bytes(bytes@),
{
    let n: usize = bytes.len();
    let count: usize = n / 4;
    let ghost wanted = words_of_bytes(bytes@);
    let mut out: Vec<u32> = Vec::new();
    let mut i: usize = 0;
    while i < count
        invariant
            i <= count,
            4 * count <= n,
            n == bytes@.len(),
            count == bytes@.len() / 4,
            wanted == words_of_bytes(bytes@),
            out@ == wanted.take(i as int),
        decreases count - i,
    {
        let a: u32 = bytes[4 * i] as u32;
        let b: u32 = bytes[4 * i + 1] as u32;
        let c: u32 = bytes[4 * i + 2] as u32;
        let d: u32 = bytes[4 * i + 3] as u32;
        out.push(a + 256 * b + 65536 * c + 16777216 * d);
        i += 1;
        assert(out@ =~= wanted.take(i as int));
    }
    assert(wanted.take(i as int) =~= wanted);
    out
}

proof fn lemma_all_bytes(ws: Seq<u32>, i: int)
    requires
        0 <= i < ws.len(),
    ensures
        all_bytes(ws).len() == 4 * ws.len(),
        all_bytes(ws)[4 * i] == bytes_of(ws[i])[0],
        all_bytes(ws)[4 * i + 1] == bytes_of(ws[i])[1],
        all_bytes(ws)[4 * i + 2] == bytes_of(ws[i])[2],
        all_bytes(ws)[4 * i + 3] == bytes_of(ws[i])[3],
    decreases ws.len(),
{
    lemma_all_bytes_len(ws);
    lemma_all_bytes_len(ws.drop_last());
    if i < ws.len() - 1 {
        lemma_all_bytes(ws.drop_last(), i);
    }
}

proof fn lemma_all_bytes_len(ws: Seq<u32>)
    ensures
        all_bytes(ws).len() == 4 * ws.len(),
    decreases ws.len(),
{
    if ws.len() > 0 {
        lemma_all_bytes_len(ws.drop_last());
    }
}

/// A stored embedding reads back as it was.
pub proof fn embedding_reads_back(ws: Seq<u32>)
    ensures
        all_bytes(ws).len() == 4 * ws.len(),
        words_of_bytes(all_bytes(ws)) == ws,
{
    lemma_all_bytes_len(ws);
    assert forall|i: int| 0 <= i < ws.len() implies word_of(all_bytes(ws), i) == ws[i] by {
        lemma_all_bytes(ws, i);
        let w = ws[i];
        assert(w == w % 256 + 256 * ((w / 256) % 256) + 65536 * ((w / 65536) % 256) + 16777216 * ((w
            / 16777216) % 256)) by (bit_vector);
    }
    assert(words_of_bytes(all_bytes(ws)) =~= ws);
}

// ---------------------------------------------------------------------------
// Queries
// ---------------------------------------------------------------------------

/// A note that the manifest lists: its path and its identifier.
#[derive(Debug)]
pub struct ManifestRow {
    pub path: String,
    pub doc_id: String,
}

impl View for ManifestRow {
    type V = (Seq<char>, Seq<char>);

    open spec fn view(&self) -> (Seq<char>, Seq<char>) {
        (self.path@, self.doc_id@)
    }
}

/// The rows whose paths are not active any more.
pub open spec fn gone(rows: Seq<(Seq<char>, Seq<char>)>, active: Seq<Seq<char>>) -> Seq<
    (Seq<char>, Seq<char>),
>
    decreases rows.len(),
{
    if rows.len() == 0 {
        Seq::empty()
    } else {
        let before = gone(rows.drop_last(), active);
        if active.contains(rows.last().0) {
            before
        } else {
            before.push(rows.last())
        }
    }
}

/// The rows whose paths are not active any more.
pub fn orphaned_rows(rows: Vec<ManifestRow>, active: &Vec<String>) -> (r: Vec<ManifestRow>)
    ensures
        views(r@) == gone(views(rows@), views(active@)),
{
    broadcast use group_views;

    let ghost all = views(rows@);
    let mut out: Vec<ManifestRow> = Vec::new();
    for row in it: rows
        invariant
            it.seq() == rows@,
            all == views(rows@),
            views(out@) == gone(all.take(it.index() as int), views(active@)),
    {
        let ghost n = it.index() as int;
        assert(all.take(n + 1).drop_last() =~= all.take(n));
        assert(all[n] == row@);
        if !holds_str(active, row.path.as_str()) {
            out.push(row);
        }
    }
    assert(all.take(all.len() as int) =~= all);
    out
}

/// The names under which a tag may be stored: without a hash and with one.
pub fn tag_spellings(tag: &str) -> (r: (String, String))
    ensures
        r.0@ == trim_start_char(tag@, '#'),
        r.1@ == "#"@ + trim_start_char(tag@, '#'),
{
    let clean = str_trim_start_char(tag, '#');
    let mut hashed = "#".to_owned();
    hashed.append(clean.as_str());
    (clean, hashed)
}

/// The titles of a list that the database joined with commas.
pub fn split_sources(joined: &str) -> (r: Vec<String>)
    ensures
        views(r@) == split_on(joined@, ',').map_values(|s: Seq<char>| trim(s)),
{
    broadcast use group_views;

    let parts = str_split(joined, ',');
    let ghost wanted = views(parts@).map_values(|s: Seq<char>| trim(s));
    let mut out: Vec<String> = Vec::new();
    let mut i: usize = 0;
    while i < parts.len()
        invariant
            i <= parts@.len(),
            wanted == views(parts@).map_values(|s: Seq<char>| trim(s)),
            views(out@) == wanted.take(i as int),
        decreases parts.len() - i,
    {
        out.push(str_trim(parts[i].as_str()));
        i += 1;
        assert(wanted.take(i as int) =~= wanted.take(i as int - 1).push(wanted[i as int - 1]));
    }
    assert(wanted.take(i as int) =~= wanted);
    out
}

/// The rows that are taken out are those whose path is not active any more, in their
/// order.
pub proof fn inactive_rows_are_gone(rows: Seq<(Seq<char>, Seq<char>)>, active: Seq<Seq<char>>)
    ensures
        gone(rows, active) == rows.filter(|r: (Seq<char>, Seq<char>)| !active.contains(r.0)),
    decreases rows.len(),
{
    reveal(Seq::filter);
    if rows.len() > 0 {
        inactive_rows_are_gone(rows.drop_last(), active);
    } else {
        assert(gone(rows, active) =~= rows);
    }
}

/// A kind of link is stored under its name and read back as the kind it was.
pub proof fn link_kinds_read_back(t: crate::ast::LinkType)
    ensures
        crate::rag_graph::stored_link_type(relation_of(t)) == t,
{
    reveal_strlit("wikilink");
    reveal_strlit("embed");
    reveal_strlit("markdown");
    assert("wikilink"@.len() == 8 && "embed"@.len() == 5 && "markdown"@.len() == 8);
    assert("wikilink"@[0] == 'w' && "markdown"@[0] == 'm');
}

/// A row says what it stands for: its texts, its lines, and for a link its kind.
pub proof fn rows_say_what_they_stand_for(
    r: OutlinkRow,
    l: LinkModel,
    q: SectionRow,
    s: SectionModel,
    t: TaggingRow,
    tag: TagModel,
    c: ChunkRow,
    chunk: ChunkModel,
)
    ensures
        is_link_row(r, l) ==> r.target_note@ == l.target_note && r.line_number == l.line_number as i64
            && opt_view(r.target_heading) == l.target_heading && opt_view(r.target_block)
            == l.target_block && opt_view(r.alias) == l.alias && opt_view(r.context_snippet)
            == l.context_snippet && opt_view(r.source_section_id) == l.source_section_id
            && crate::rag_graph::stored_link_type(r.link_type@) == l.link_type,
        is_section_row(q, s) ==> q.section_id@ == s.id && q.heading@ == s.heading && q.level
            == s.level && opt_view(q.parent_id) == s.parent_id && json_strings(q.breadcrumbs_json@)
            == Some(s.breadcrumbs) && q.line_start == s.line_start as i64 && q.line_end
            == s.line_end as i64 && q.content@ == s.content,
        is_tag_row(t, tag) ==> t.tag@ == tag.name && opt_view(t.section_id) == tag.section_id
            && t.line_number == tag.line_number as i64,
        is_chunk_row(c, chunk) ==> c.chunk_id@ == chunk.chunk_id && opt_view(c.section_id)
            == chunk.section_id && c.title@ == chunk.title && c.breadcrumbs@ == chunk.breadcrumbs
            && c.line_start == chunk.line_start as i64 && c.line_end == chunk.line_end as i64
            && c.content@ == chunk.content,
{
    link_kinds_read_back(l.link_type);
}

} // verus!
