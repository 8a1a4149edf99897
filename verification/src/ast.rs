//! What a parsed note consists of.

use crate::text::{group_views, opt_view, views};
use vstd::prelude::*;

verus! {

/// How a link is written.
#[derive(Debug, Clone, Copy, PartialEq, Eq, Structural)]
pub enum LinkType {
    /// `[[target]]`
    Wikilink,
    /// `![[target]]`
    Embed,
    /// `[text](target.md)`
    Markdown,
}

/// The metadata block at the head of a note.
#[derive(Debug)]
pub struct Frontmatter {
    pub title: Option<String>,
    pub aliases: Vec<String>,
    pub tags: Vec<String>,
    pub created: Option<String>,
    pub updated: Option<String>,
    /// Every other field, by its key, as JSON text; no key occurs twice.
    pub extra: Vec<ExtraField>,
}

/// A metadata field that has no meaning of its own to the library.
#[derive(Debug)]
pub struct ExtraField {
    pub key: String,
    /// The value as JSON text.
    pub json: String,
}

/// A stretch of a note under one heading.
#[derive(Debug)]
pub struct AstSection {
    pub id: String,
    pub heading: String,
    pub level: u8,
    pub parent_id: Option<String>,
    pub breadcrumbs: Vec<String>,
    pub line_start: usize,
    pub line_end: usize,
    pub content: String,
}

/// A link from a note to another. Its columns are those of its first and last byte,
/// counted from 1.
#[derive(Debug)]
pub struct AstLink {
    pub link_type: LinkType,
    pub target_note: String,
    pub target_heading: Option<String>,
    pub target_block: Option<String>,
    pub alias: Option<String>,
    pub line_number: usize,
    pub col_start: usize,
    pub col_end: usize,
    pub context_snippet: Option<String>,
    pub source_section_id: Option<String>,
}

/// A tag and where it stands.
#[derive(Debug)]
pub struct AstTag {
    pub name: String,
    pub line_number: usize,
    pub section_id: Option<String>,
}

/// A `key:: value` attribute and where it stands.
#[derive(Debug)]
pub struct MetadataField {
    pub key: String,
    pub value: String,
    pub line_number: usize,
    pub section_id: Option<String>,
}

/// A piece of a note of a size that suits retrieval.
#[derive(Debug)]
pub struct AstChunk {
    pub chunk_id: String,
    pub section_id: Option<String>,
    pub title: String,
    pub breadcrumbs: String,
    pub line_start: usize,
    pub line_end: usize,
    pub content: String,
}

/// A parsed note. Paths are texts in which `/` parts the components.
#[derive(Debug)]
pub struct ParsedDocument {
    pub path: String,
    pub title: String,
    pub frontmatter: Frontmatter,
    pub sections: Vec<AstSection>,
    pub links: Vec<AstLink>,
    pub tags: Vec<AstTag>,
    pub chunks: Vec<AstChunk>,
    pub word_count: usize,
    pub content_hash: String,
    pub attributes: Vec<MetadataField>,
}

// ---------------------------------------------------------------------------
// Models
// ---------------------------------------------------------------------------

/// What a `Frontmatter` says.
pub struct FrontmatterModel {
    pub title: Option<Seq<char>>,
    pub aliases: Seq<Seq<char>>,
    pub tags: Seq<Seq<char>>,
    pub created: Option<Seq<char>>,
    pub updated: Option<Seq<char>>,
    pub extra: Seq<(Seq<char>, Seq<char>)>,
}

/// What an `AstSection` says.
pub struct SectionModel {
    pub id: Seq<char>,
    pub heading: Seq<char>,
    pub level: u8,
    pub parent_id: Option<Seq<char>>,
    pub breadcrumbs: Seq<Seq<char>>,
    pub line_start: usize,
    pub line_end: usize,
    pub content: Seq<char>,
}

/// What an `AstLink` says.
pub struct LinkModel {
    pub link_type: LinkType,
    pub target_note: Seq<char>,
    pub target_heading: Option<Seq<char>>,
    pub target_block: Option<Seq<char>>,
    pub alias: Option<Seq<char>>,
    pub line_number: usize,
    pub col_start: usize,
    pub col_end: usize,
    pub context_snippet: Option<Seq<char>>,
    pub source_section_id: Option<Seq<char>>,
}

/// What an `AstTag` says.
pub struct TagModel {
    pub name: Seq<char>,
    pub line_number: usize,
    pub section_id: Option<Seq<char>>,
}

/// What a `MetadataField` says.
pub struct FieldModel {
    pub key: Seq<char>,
    pub value: Seq<char>,
    pub line_number: usize,
    pub section_id: Option<Seq<char>>,
}

/// What an `AstChunk` says.
pub struct ChunkModel {
    pub chunk_id: Seq<char>,
    pub section_id: Option<Seq<char>>,
    pub title: Seq<char>,
    pub breadcrumbs: Seq<char>,
    pub line_start: usize,
    pub line_end: usize,
    pub content: Seq<char>,
}

/// What a `ParsedDocument` says.
pub struct DocumentModel {
    pub path: Seq<char>,
    pub title: Seq<char>,
    pub frontmatter: FrontmatterModel,
    pub sections: Seq<SectionModel>,
    pub links: Seq<LinkModel>,
    pub tags: Seq<TagModel>,
    pub chunks: Seq<ChunkModel>,
    pub word_count: nat,
    pub content_hash: Seq<char>,
    pub attributes: Seq<FieldModel>,
}

impl View for ExtraField {
    type V = (Seq<char>, Seq<char>);

    open spec fn view(&self) -> (Seq<char>, Seq<char>) {
        (self.key@, self.json@)
    }
}

impl View for Frontmatter {
    type V = FrontmatterModel;

    open spec fn view(&self) -> FrontmatterModel {
        FrontmatterModel {
            title: opt_view(self.title),
            aliases: views(self.aliases@),
            tags: views(self.tags@),
            created: opt_view(self.created),
            updated: opt_view(self.updated),
            extra: views(self.extra@),
        }
    }
}

impl View for AstSection {
    type V = SectionModel;

    open spec fn view(&self) -> SectionModel {
        SectionModel {
            id: self.id@,
            heading: self.heading@,
            level: self.level,
            parent_id: opt_view(self.parent_id),
            breadcrumbs: views(self.breadcrumbs@),
            line_start: self.line_start,
            line_end: self.line_end,
            content: self.content@,
        }
    }
}

impl View for AstLink {
    type V = LinkModel;

    open spec fn view(&self) -> LinkModel {
        LinkModel {
            link_type: self.link_type,
            target_note: self.target_note@,
            target_heading: opt_view(self.target_heading),
            target_block: opt_view(self.target_block),
            alias: opt_view(self.alias),
            line_number: self.line_number,
            col_start: self.col_start,
            col_end: self.col_end,
            context_snippet: opt_view(self.context_snippet),
            source_section_id: opt_view(self.source_section_id),
        }
    }
}

impl View for AstTag {
    type V = TagModel;

    open spec fn view(&self) -> TagModel {
        TagModel {
            name: self.name@,
            line_number: self.line_number,
            section_id: opt_view(self.section_id),
        }
    }
}

impl View for MetadataField {
    type V = FieldModel;

    open spec fn view(&self) -> FieldModel {
        FieldModel {
            key: self.key@,
            value: self.value@,
            line_number: self.line_number,
            section_id: opt_view(self.section_id),
        }
    }
}

impl View for AstChunk {
    type V = ChunkModel;

    open spec fn view(&self) -> ChunkModel {
        ChunkModel {
            chunk_id: self.chunk_id@,
            section_id: opt_view(self.section_id),
            title: self.title@,
            breadcrumbs: self.breadcrumbs@,
            line_start: self.line_start,
            line_end: self.line_end,
            content: self.content@,
        }
    }
}

impl View for ParsedDocument {
    type V = DocumentModel;

    open spec fn view(&self) -> DocumentModel {
        DocumentModel {
            path: self.path@,
            title: self.title@,
            frontmatter: self.frontmatter@,
            sections: views(self.sections@),
            links: views(self.links@),
            tags: views(self.tags@),
            chunks: views(self.chunks@),
            word_count: self.word_count as nat,
            content_hash: self.content_hash@,
            attributes: views(self.attributes@),
        }
    }
}

/// Metadata of a note that has none.
pub open spec fn no_frontmatter() -> FrontmatterModel {
    FrontmatterModel {
        title: None,
        aliases: Seq::empty(),
        tags: Seq::empty(),
        created: None,
        updated: None,
        extra: Seq::empty(),
    }
}

impl Default for Frontmatter {
    fn default() -> (r: Self)
        ensures
            r@ == no_frontmatter(),
    {
        broadcast use group_views;

        Frontmatter {
            title: None,
            aliases: Vec::new(),
            tags: Vec::new(),
            created: None,
            updated: None,
            extra: Vec::new(),
        }
    }
}

} // verus!
