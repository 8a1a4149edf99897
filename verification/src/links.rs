//! Links, tags and attributes: what the lines of a note refer to.

use crate::ast::{
    AstLink, AstSection, AstTag, FieldModel, LinkModel, LinkType, MetadataField, SectionModel,
    TagModel,
};
use crate::matching::{group, Match, MatchModel};
use crate::picking::{lemma_pick_all, lemma_pick_none, lemma_picked};
use crate::sections::group_text;
use crate::text::{
    chars_of, clone_opt, group_views, opt_view, same, str_ends_with, str_starts_with,
    str_trim, stands_at, string_range, trim, views,
};
use vstd::prelude::*;

verus! {

/// Where a line stands: its number, its trimmed text, and the section it
/// belongs to.
#[derive(Debug)]
pub struct Place {
    pub line: usize,
    pub snippet: Option<String>,
    pub section: Option<String>,
}

/// What a `Place` says.
pub struct PlaceModel {
    pub line: usize,
    pub snippet: Option<Seq<char>>,
    pub section: Option<Seq<char>>,
}

impl View for Place {
    type V = PlaceModel;

    open spec fn view(&self) -> PlaceModel {
        PlaceModel {
            line: self.line,
            snippet: opt_view(self.snippet),
            section: opt_view(self.section),
        }
    }
}

/// What the patterns matched in one line.
#[derive(Debug)]
pub struct LineMatches {
    pub wikilinks: Vec<Match>,
    pub markdown_links: Vec<Match>,
    pub tags: Vec<Match>,
    pub bracket_fields: Vec<Match>,
    pub inline_fields: Vec<Match>,
}

/// What a `LineMatches` says.
pub struct LineModel {
    pub wikilinks: Seq<MatchModel>,
    pub markdown_links: Seq<MatchModel>,
    pub tags: Seq<MatchModel>,
    pub bracket_fields: Seq<MatchModel>,
    pub inline_fields: Seq<MatchModel>,
}

impl View for LineMatches {
    type V = LineModel;

    open spec fn view(&self) -> LineModel {
        LineModel {
            wikilinks: views(self.wikilinks@),
            markdown_links: views(self.markdown_links@),
            tags: views(self.tags@),
            bracket_fields: views(self.bracket_fields@),
            inline_fields: views(self.inline_fields@),
        }
    }
}

/// The first section from `i` on that line `line` lies in.
pub open spec fn section_at(sections: Seq<SectionModel>, line: int, i: int) -> Option<Seq<char>>
    decreases sections.len() - i,
{
    if i >= sections.len() {
        None
    } else if sections[i].line_start <= line && line <= sections[i].line_end {
        Some(sections[i].id)
    } else {
        section_at(sections, line, i + 1)
    }
}

/// The section that a line lies in.
pub fn find_section(sections: &Vec<AstSection>, line: usize) -> (r: Option<String>)
    ensures
        opt_view(r) == section_at(views(sections@), line as int, 0),
{
    let ghost all = views(sections@);
    let mut i: usize = 0;
    while i < sections.len()
        invariant
            i <= sections@.len(),
            all == views(sections@),
            section_at(all, line as int, i as int) == section_at(all, line as int, 0),
        decreases sections.len() - i,
    {
        assert(all[i as int] == sections@[i as int]@);
        if sections[i].line_start <= line && line <= sections[i].line_end {
            return Some(sections[i].id.clone());
        }
        i += 1;
    }
    None
}

// ---------------------------------------------------------------------------
// Links
// ---------------------------------------------------------------------------

/// A group's text, trimmed.
pub open spec fn trimmed_group(m: MatchModel, n: int) -> Option<Seq<char>> {
    match group(m, n) {
        Some(s) => Some(trim(s)),
        None => None,
    }
}

/// The text, or nothing.
pub open spec fn or_empty(o: Option<Seq<char>>) -> Seq<char> {
    match o {
        Some(s) => s,
        None => Seq::empty(),
    }
}

/// The column of a match's first byte; columns are counted from 1, so that of its last
/// byte is the position behind it.
pub open spec fn first_column(m: MatchModel) -> usize {
    if m.start < usize::MAX {
        (m.start + 1) as usize
    } else {
        usize::MAX
    }
}

/// The link that a match of the wikilink pattern stands for; none without a
/// target.
pub open spec fn wikilink_of(m: MatchModel, at: PlaceModel) -> Option<LinkModel> {
    let target = or_empty(trimmed_group(m, 2));
    if target.len() == 0 {
        None
    } else {
        Some(
            LinkModel {
                link_type: if group(m, 1) is Some {
                    LinkType::Embed
                } else {
                    LinkType::Wikilink
                },
                target_note: target,
                target_heading: trimmed_group(m, 4),
                target_block: if group(m, 3) is Some {
                    trimmed_group(m, 3)
                } else if group(m, 5) is Some {
                    trimmed_group(m, 5)
                } else {
                    trimmed_group(m, 6)
                },
                alias: trimmed_group(m, 7),
                line_number: at.line,
                col_start: first_column(m),
                col_end: m.end,
                context_snippet: at.snippet,
                source_section_id: at.section,
            },
        )
    }
}

/// The text without the copies of `p` at its end.
pub open spec fn trim_end_str(s: Seq<char>, p: Seq<char>) -> Seq<char>
    decreases s.len(),
{
    if p.len() > 0 && p.is_suffix_of(s) {
        trim_end_str(s.take(s.len() - p.len()), p)
    } else {
        s
    }
}

/// Whether the URL of a Markdown link leads to a note: a `.md` file, or
/// anything but a web address or an anchor.
pub open spec fn is_note_url(url: Seq<char>) -> bool {
    ".md"@.is_suffix_of(url) || (!"http://"@.is_prefix_of(url) && !"https://"@.is_prefix_of(url)
        && !"#"@.is_prefix_of(url))
}

/// The link that a match of the Markdown link pattern stands for; none where
/// the URL leads to no note.
pub open spec fn markdown_link_of(m: MatchModel, at: PlaceModel) -> Option<LinkModel> {
    let url = or_empty(trimmed_group(m, 2));
    if is_note_url(url) && url.len() > 0 {
        Some(
            LinkModel {
                link_type: LinkType::Markdown,
                target_note: trim_end_str(url, ".md"@),
                target_heading: None,
                target_block: None,
                alias: trimmed_group(m, 1),
                line_number: at.line,
                col_start: first_column(m),
                col_end: m.end,
                context_snippet: at.snippet,
                source_section_id: at.section,
            },
        )
    } else {
        None
    }
}

/// The links that the matches stand for, in order.
pub open spec fn links_of(
    ms: Seq<MatchModel>,
    at: PlaceModel,
    markdown: bool,
) -> Seq<LinkModel>
    decreases ms.len(),
{
    if ms.len() == 0 {
        Seq::empty()
    } else {
        let before = links_of(ms.drop_last(), at, markdown);
        let last = if markdown {
            markdown_link_of(ms.last(), at)
        } else {
            wikilink_of(ms.last(), at)
        };
        match last {
            Some(l) => before.push(l),
            None => before,
        }
    }
}

fn trimmed_text(m: &Match, n: usize) -> (r: Option<String>)
    ensures
        opt_view(r) == trimmed_group(m@, n as int),
{
    match group_text(m, n) {
        Some(s) => Some(str_trim(s.as_str())),
        None => None,
    }
}

/// The text without the copies of `p` at its end.
pub fn trim_end_text(s: &str, p: &str) -> (r: String)
    requires
        p@.len() > 0,
    ensures
        r@ == trim_end_str(s@, p@),
{
    let sv = chars_of(s);
    let pv = chars_of(p);
    let mut n: usize = sv.len();
    assert(s@.take(n as int) =~= s@);
    while n >= pv.len()
        invariant
            n <= sv@.len(),
            sv@ == s@,
            pv@ == p@,
            p@.len() > 0,
            trim_end_str(s@.take(n as int), p@) == trim_end_str(s@, p@),
        ensures
            n <= sv@.len(),
            s@.take(n as int) == trim_end_str(s@, p@),
        decreases n,
    {
        let at: usize = n - pv.len();
        let here = stands_at(&sv, &pv, at);
        assert(s@.take(n as int).subrange(at as int, n as int) =~= s@.subrange(
            at as int,
            n as int,
        ));
        assert(here == p@.is_suffix_of(s@.take(n as int)));
        if !here {
            break;
        }
        assert(s@.take(n as int).take(at as int) =~= s@.take(at as int));
        n = at;
    }
    let r = string_range(&sv, 0, n);
    assert(r@ =~= s@.take(n as int));
    r
}

/// The link that a match of the wikilink pattern stands for.
pub fn wikilink(m: &Match, at: &Place) -> (r: Option<AstLink>)
    ensures
        opt_view(r) == wikilink_of(m@, at@),
{
    let target = match trimmed_text(m, 2) {
        Some(t) => t,
        None => String::new(),
    };
    if target.as_str().is_empty() {
        return None;
    }
    let block = if group_text(m, 3).is_some() {
        trimmed_text(m, 3)
    } else if group_text(m, 5).is_some() {
        trimmed_text(m, 5)
    } else {
        trimmed_text(m, 6)
    };
    Some(
        AstLink {
            link_type: if group_text(m, 1).is_some() {
                LinkType::Embed
            } else {
                LinkType::Wikilink
            },
            target_note: target,
            target_heading: trimmed_text(m, 4),
            target_block: block,
            alias: trimmed_text(m, 7),
            line_number: at.line,
            col_start: m.start.saturating_add(1),
            col_end: m.end,
            context_snippet: clone_opt(&at.snippet),
            source_section_id: clone_opt(&at.section),
        },
    )
}

/// The link that a match of the Markdown link pattern stands for.
pub fn markdown_link(m: &Match, at: &Place) -> (r: Option<AstLink>)
    ensures
        opt_view(r) == markdown_link_of(m@, at@),
{
    proof {
        reveal_strlit(".md");
    }
    let url = match trimmed_text(m, 2) {
        Some(t) => t,
        None => String::new(),
    };
    let u = url.as_str();
    let internal = str_ends_with(u, ".md") || (!str_starts_with(u, "http://") && !str_starts_with(
        u,
        "https://",
    ) && !str_starts_with(u, "#"));
    if internal && !u.is_empty() {
        Some(
            AstLink {
                link_type: LinkType::Markdown,
                target_note: trim_end_text(u, ".md"),
                target_heading: None,
                target_block: None,
                alias: trimmed_text(m, 1),
                line_number: at.line,
                col_start: m.start.saturating_add(1),
                col_end: m.end,
                context_snippet: clone_opt(&at.snippet),
                source_section_id: clone_opt(&at.section),
            },
        )
    } else {
        None
    }
}

/// Appends the links that the matches stand for.
pub fn push_links(out: &mut Vec<AstLink>, ms: &Vec<Match>, at: &Place, markdown: bool)
    ensures
        views(final(out)@) == views(old(out)@) + links_of(views(ms@), at@, markdown),
{
    broadcast use group_views;

    let ghost before = views(out@);
    let ghost all = views(ms@);
    let mut i: usize = 0;
    assert(before + links_of(all.take(0), at@, markdown) =~= before);
    while i < ms.len()
        invariant
            i <= ms@.len(),
            all == views(ms@),
            before == views(old(out)@),
            views(out@) == before + links_of(all.take(i as int), at@, markdown),
        decreases ms.len() - i,
    {
        assert(all.take(i as int + 1).drop_last() =~= all.take(i as int));
        let ghost so_far = links_of(all.take(i as int), at@, markdown);
        let link = if markdown {
            markdown_link(&ms[i], at)
        } else {
            wikilink(&ms[i], at)
        };
        if let Some(l) = link {
            out.push(l);
            assert(before + so_far.push(l@) =~= (before + so_far).push(l@));
        }
        i += 1;
    }
    assert(all.take(i as int) =~= all);
}

// ---------------------------------------------------------------------------
// Tags and attributes
// ---------------------------------------------------------------------------

/// A hexadecimal digit.
pub open spec fn is_hex_digit(c: char) -> bool {
    ('0' <= c && c <= '9') || ('a' <= c && c <= 'f') || ('A' <= c && c <= 'F')
}

/// What stands behind the hash of a colour: three, four, six or eight hexadecimal
/// digits.
pub open spec fn is_hex_color(s: Seq<char>) -> bool {
    &&& s.len() == 3 || s.len() == 4 || s.len() == 6 || s.len() == 8
    &&& forall|i: int| 0 <= i < s.len() ==> is_hex_digit(#[trigger] s[i])
}

fn hex_color(s: &str) -> (r: bool)
    ensures
        r == is_hex_color(s@),
{
    let v = chars_of(s);
    let n: usize = v.len();
    if n != 3 && n != 4 && n != 6 && n != 8 {
        return false;
    }
    let mut i: usize = 0;
    while i < n
        invariant
            i <= n,
            n == v@.len(),
            v@ == s@,
            forall|j: int| 0 <= j < i ==> is_hex_digit(#[trigger] s@[j]),
        decreases n - i,
    {
        let c = v[i];
        if !(('0' <= c && c <= '9') || ('a' <= c && c <= 'f') || ('A' <= c && c <= 'F')) {
            assert(!is_hex_digit(s@[i as int]));
            return false;
        }
        i += 1;
    }
    true
}

/// The tags with one more, unless it is empty, a colour, or the line has it already.
pub open spec fn with_tag(tags: Seq<TagModel>, name: Seq<char>, at: PlaceModel) -> Seq<TagModel> {
    if name.len() == 0 || is_hex_color(name) || (exists|k: int|
        0 <= k < tags.len() && (#[trigger] tags[k]).name == name && tags[k].line_number
            == at.line) {
        tags
    } else {
        tags.push(TagModel { name, line_number: at.line, section_id: at.section })
    }
}

/// The tags with those that the matches stand for.
pub open spec fn with_tags(
    tags: Seq<TagModel>,
    ms: Seq<MatchModel>,
    at: PlaceModel,
) -> Seq<TagModel>
    decreases ms.len(),
{
    if ms.len() == 0 {
        tags
    } else {
        let before = with_tags(tags, ms.drop_last(), at);
        match trimmed_group(ms.last(), 1) {
            Some(name) => with_tag(before, name, at),
            None => before,
        }
    }
}

/// The attribute that a match of an attribute pattern stands for.
pub open spec fn field_of(m: MatchModel, at: PlaceModel) -> Option<FieldModel> {
    match (trimmed_group(m, 1), trimmed_group(m, 2)) {
        (Some(key), Some(value)) => Some(
            FieldModel { key, value, line_number: at.line, section_id: at.section },
        ),
        _ => None,
    }
}

/// Whether the line has an attribute with this key already.
pub open spec fn has_field(fields: Seq<FieldModel>, key: Seq<char>, line: usize) -> bool {
    exists|k: int|
        0 <= k < fields.len() && (#[trigger] fields[k]).key == key && fields[k].line_number == line
}

/// The attributes with those that the matches stand for. With `once`, one whose
/// key the line has already is left out.
pub open spec fn with_fields(
    fields: Seq<FieldModel>,
    ms: Seq<MatchModel>,
    at: PlaceModel,
    once: bool,
) -> Seq<FieldModel>
    decreases ms.len(),
{
    if ms.len() == 0 {
        fields
    } else {
        let before = with_fields(fields, ms.drop_last(), at, once);
        match field_of(ms.last(), at) {
            Some(f) if !(once && has_field(before, f.key, at.line)) => before.push(f),
            _ => before,
        }
    }
}

/// Adds the tags that the matches stand for.
pub fn push_tags(tags: &mut Vec<AstTag>, ms: &Vec<Match>, at: &Place)
    ensures
        views(final(tags)@) == with_tags(views(old(tags)@), views(ms@), at@),
{
    broadcast use group_views;

    let ghost first = views(tags@);
    let ghost all = views(ms@);
    let mut i: usize = 0;
    assert(all.take(0) =~= Seq::empty());
    while i < ms.len()
        invariant
            i <= ms@.len(),
            all == views(ms@),
            first == views(old(tags)@),
            views(tags@) == with_tags(first, all.take(i as int), at@),
        decreases ms.len() - i,
    {
        assert(all.take(i as int + 1).drop_last() =~= all.take(i as int));
        if let Some(name) = trimmed_text(&ms[i], 1) {
            if !name.as_str().is_empty() && !hex_color(name.as_str()) && !tag_known(
                tags,
                name.as_str(),
                at.line,
            ) {
                tags.push(
                    AstTag { name, line_number: at.line, section_id: clone_opt(&at.section) },
                );
            }
        }
        i += 1;
    }
    assert(all.take(i as int) =~= all);
}

/// No line has a tag twice.
pub open spec fn tags_differ(tags: Seq<TagModel>) -> bool {
    forall|i: int, j: int|
        0 <= i < j < tags.len() ==> (#[trigger] tags[i]).name != (#[trigger] tags[j]).name
            || tags[i].line_number != tags[j].line_number
}

/// Gathering the tags of a line adds none twice, keeps those there are, and takes
/// neither an empty tag nor a colour for one.
pub proof fn line_adds_each_tag_once(tags: Seq<TagModel>, ms: Seq<MatchModel>, at: PlaceModel)
    requires
        tags_differ(tags),
    ensures
        ({
            let r = with_tags(tags, ms, at);
            &&& tags_differ(r)
            &&& tags.is_prefix_of(r)
            &&& forall|i: int|
                tags.len() <= i < r.len() ==> (#[trigger] r[i]).name.len() > 0 && !is_hex_color(
                    r[i].name,
                ) && r[i].line_number == at.line
        }),
    decreases ms.len(),
{
    if ms.len() > 0 {
        line_adds_each_tag_once(tags, ms.drop_last(), at);
        let before = with_tags(tags, ms.drop_last(), at);
        let r = with_tags(tags, ms, at);
        if r.len() > before.len() {
            assert(r.drop_last() =~= before);
            assert forall|i: int, j: int| 0 <= i < j < r.len() implies (#[trigger] r[i]).name != (
            #[trigger] r[j]).name || r[i].line_number != r[j].line_number by {
                assert(r[i] == before[i]);
                if j < before.len() {
                    assert(r[j] == before[j]);
                }
            }
            assert forall|i: int| tags.len() <= i < r.len() implies (#[trigger] r[i]).name.len() > 0
                && !is_hex_color(r[i].name) && r[i].line_number == at.line by {
                if i < before.len() {
                    assert(r[i] == before[i]);
                }
            }
        }
    }
}

fn tag_known(tags: &Vec<AstTag>, name: &str, line: usize) -> (r: bool)
    ensures
        r == exists|k: int|
            0 <= k < tags@.len() && (#[trigger] views(tags@)[k]).name == name@ && views(
                tags@,
            )[k].line_number == line,
{
    let ghost all = views(tags@);
    let mut k: usize = 0;
    while k < tags.len()
        invariant
            k <= tags@.len(),
            all == views(tags@),
            forall|j: int|
                0 <= j < k ==> !((#[trigger] all[j]).name == name@ && all[j].line_number == line),
        decreases tags.len() - k,
    {
        assert(all[k as int] == tags@[k as int]@);
        if same(tags[k].name.as_str(), name) && tags[k].line_number == line {
            return true;
        }
        k += 1;
    }
    false
}

fn field_known(fields: &Vec<MetadataField>, key: &str, line: usize) -> (r: bool)
    ensures
        r == has_field(views(fields@), key@, line),
{
    let ghost all = views(fields@);
    let mut k: usize = 0;
    while k < fields.len()
        invariant
            k <= fields@.len(),
            all == views(fields@),
            forall|j: int|
                0 <= j < k ==> !((#[trigger] all[j]).key == key@ && all[j].line_number == line),
        decreases fields.len() - k,
    {
        assert(all[k as int] == fields@[k as int]@);
        if same(fields[k].key.as_str(), key) && fields[k].line_number == line {
            return true;
        }
        k += 1;
    }
    false
}

/// Adds the attributes that the matches stand for.
pub fn push_fields(fields: &mut Vec<MetadataField>, ms: &Vec<Match>, at: &Place, once: bool)
    ensures
        views(final(fields)@) == with_fields(views(old(fields)@), views(ms@), at@, once),
{
    broadcast use group_views;

    let ghost first = views(fields@);
    let ghost all = views(ms@);
    let mut i: usize = 0;
    assert(all.take(0) =~= Seq::empty());
    while i < ms.len()
        invariant
            i <= ms@.len(),
            all == views(ms@),
            first == views(old(fields)@),
            views(fields@) == with_fields(first, all.take(i as int), at@, once),
        decreases ms.len() - i,
    {
        assert(all.take(i as int + 1).drop_last() =~= all.take(i as int));
        if let (Some(key), Some(value)) = (trimmed_text(&ms[i], 1), trimmed_text(&ms[i], 2)) {
            if !(once && field_known(fields, key.as_str(), at.line)) {
                fields.push(
                    MetadataField {
                        key,
                        value,
                        line_number: at.line,
                        section_id: clone_opt(&at.section),
                    },
                );
            }
        }
        i += 1;
    }
    assert(all.take(i as int) =~= all);
}

// ---------------------------------------------------------------------------
// Whole notes
// ---------------------------------------------------------------------------

/// What the lines of a note refer to.
pub struct ReferencesModel {
    pub links: Seq<LinkModel>,
    pub tags: Seq<TagModel>,
    pub attributes: Seq<FieldModel>,
}

/// The links, tags and attributes of a note.
#[derive(Debug)]
pub struct References {
    pub links: Vec<AstLink>,
    pub tags: Vec<AstTag>,
    pub attributes: Vec<MetadataField>,
}

impl View for References {
    type V = ReferencesModel;

    open spec fn view(&self) -> ReferencesModel {
        ReferencesModel {
            links: views(self.links@),
            tags: views(self.tags@),
            attributes: views(self.attributes@),
        }
    }
}

/// Where line `i` of the body stands.
pub open spec fn place_of(
    lines: Seq<Seq<char>>,
    sections: Seq<SectionModel>,
    offset: int,
    i: int,
) -> PlaceModel {
    PlaceModel {
        line: (offset + i + 1) as usize,
        snippet: if i < lines.len() {
            Some(trim(lines[i]))
        } else {
            None
        },
        section: section_at(sections, offset + i + 1, 0),
    }
}

/// The tags of the metadata block; they stand on line 1, in no section.
pub open spec fn metadata_tags(names: Seq<Seq<char>>) -> Seq<TagModel> {
    names.map_values(|name: Seq<char>| TagModel { name, line_number: 1, section_id: None })
}

/// What the first `n` lines refer to, given what the patterns matched in each.
/// In a line, wikilinks come before Markdown links and bracketed attributes
/// before plain ones.
pub open spec fn references_of(
    names: Seq<Seq<char>>,
    found: Seq<LineModel>,
    lines: Seq<Seq<char>>,
    sections: Seq<SectionModel>,
    offset: int,
    n: int,
) -> ReferencesModel
    decreases n,
{
    if n <= 0 {
        ReferencesModel {
            links: Seq::empty(),
            tags: metadata_tags(names),
            attributes: Seq::empty(),
        }
    } else {
        let before = references_of(names, found, lines, sections, offset, n - 1);
        let at = place_of(lines, sections, offset, n - 1);
        let m = found[n - 1];
        ReferencesModel {
            links: before.links + links_of(m.wikilinks, at, false) + links_of(
                m.markdown_links,
                at,
                true,
            ),
            tags: with_tags(before.tags, m.tags, at),
            attributes: with_fields(
                with_fields(before.attributes, m.bracket_fields, at, false),
                m.inline_fields,
                at,
                true,
            ),
        }
    }
}

fn metadata_tag_list(names: &Vec<String>) -> (r: Vec<AstTag>)
    ensures
        views(r@) == metadata_tags(views(names@)),
{
    broadcast use group_views;

    let ghost wanted = metadata_tags(views(names@));
    let mut out: Vec<AstTag> = Vec::new();
    let mut i: usize = 0;
    while i < names.len()
        invariant
            i <= names@.len(),
            wanted == metadata_tags(views(names@)),
            views(out@) == wanted.take(i as int),
        decreases names.len() - i,
    {
        out.push(AstTag { name: names[i].clone(), line_number: 1, section_id: None });
        i += 1;
        assert(wanted.take(i as int) =~= wanted.take(i as int - 1).push(wanted[i as int - 1]));
    }
    assert(wanted.take(i as int) =~= wanted);
    out
}

/// Collects what the lines of a note refer to, from what the patterns matched
/// in each.
pub fn collect_references(
    names: &Vec<String>,
    found: &Vec<LineMatches>,
    lines: &Vec<String>,
    sections: &Vec<AstSection>,
    offset: usize,
) -> (r: References)
    requires
        offset + found@.len() <= usize::MAX,
    ensures
        r@ == references_of(
            views(names@),
            views(found@),
            views(lines@),
            views(sections@),
            offset as int,
            found@.len() as int,
        ),
{
    broadcast use group_views;

    let mut links: Vec<AstLink> = Vec::new();
    let mut tags = metadata_tag_list(names);
    let mut attributes: Vec<MetadataField> = Vec::new();
    let mut i: usize = 0;
    while i < found.len()
        invariant
            i <= found@.len(),
            offset + found@.len() <= usize::MAX,
            ({
                let at = references_of(
                    views(names@),
                    views(found@),
                    views(lines@),
                    views(sections@),
                    offset as int,
                    i as int,
                );
                &&& views(links@) == at.links
                &&& views(tags@) == at.tags
                &&& views(attributes@) == at.attributes
            }),
        decreases found.len() - i,
    {
        let m = &found[i];
        assert(views(found@)[i as int] == m@);
        let line: usize = offset + i + 1;
        let snippet = if i < lines.len() {
            assert(views(lines@)[i as int] == lines@[i as int]@);
            Some(str_trim(lines[i].as_str()))
        } else {
            None
        };
        let at = Place { line, snippet, section: find_section(sections, line) };
        assert(at@ == place_of(views(lines@), views(sections@), offset as int, i as int));
        push_links(&mut links, &m.wikilinks, &at, false);
        push_links(&mut links, &m.markdown_links, &at, true);
        push_tags(&mut tags, &m.tags, &at);
        push_fields(&mut attributes, &m.bracket_fields, &at, false);
        push_fields(&mut attributes, &m.inline_fields, &at, true);
        i += 1;
    }
    References { links, tags, attributes }
}

// ---------------------------------------------------------------------------
// What holds of the references
// ---------------------------------------------------------------------------

/// Taking the copies of a text off an end takes all of them off and nothing else: what
/// is left begins the text and does not end in a copy, and the rest is copies.
pub proof fn every_copy_is_taken_off(s: Seq<char>, p: Seq<char>) -> (n: nat)
    requires
        p.len() > 0,
    ensures
        trim_end_str(s, p).is_prefix_of(s),
        !p.is_suffix_of(trim_end_str(s, p)),
        s.len() == trim_end_str(s, p).len() + n * p.len(),
        forall|i: int|
            #![trigger copy_at(s, p, trim_end_str(s, p).len() + i * p.len())]
            0 <= i < n ==> copy_at(s, p, trim_end_str(s, p).len() + i * p.len()),
    decreases s.len(),
{
    if p.is_suffix_of(s) {
        let rest = s.take(s.len() - p.len());
        let n = every_copy_is_taken_off(rest, p);
        let r = trim_end_str(s, p);
        assert((n + 1) * p.len() == n * p.len() + p.len()) by (nonlinear_arith);
        assert forall|i: int|
            #![trigger copy_at(s, p, r.len() + i * p.len())]
            0 <= i < n + 1 implies copy_at(s, p, r.len() + i * p.len()) by {
            if i < n {
                assert(copy_at(rest, p, r.len() + i * p.len()));
                let at = r.len() + i * p.len();
                assert(0 <= i * p.len()) by (nonlinear_arith)
                    requires
                        0 <= i,
                ;
                assert(s.subrange(at, at + p.len()) =~= rest.subrange(at, at + p.len()));
            } else {
                assert(s.subrange(s.len() - p.len(), s.len() as int) =~= p);
            }
        }
        n + 1
    } else {
        0
    }
}

/// Whether a copy of `p` stands at a place in the text.
pub open spec fn copy_at(s: Seq<char>, p: Seq<char>, at: int) -> bool {
    &&& 0 <= at && at + p.len() <= s.len()
    &&& s.subrange(at, at + p.len()) == p
}

/// Whether a match of the Markdown link pattern has a URL that begins like a web
/// address.
pub open spec fn begins_web_address(m: MatchModel) -> bool {
    group(m, 2) matches Some(g) && ("http://"@.is_prefix_of(trim(g)) || "https://"@.is_prefix_of(
        trim(g),
    ))
}

/// Whether it has one that begins like an anchor.
pub open spec fn begins_anchor(m: MatchModel) -> bool {
    group(m, 2) matches Some(g) && trim(g).len() > 0 && trim(g)[0] == '#'
}

/// Whether it has one that ends like the name of a note's file.
pub open spec fn ends_note_file(m: MatchModel) -> bool {
    group(m, 2) matches Some(g) && ".md"@.is_suffix_of(trim(g))
}

/// Whether a group of a match has text in it.
pub open spec fn has_text(m: MatchModel, n: int) -> bool {
    group(m, n) matches Some(g) && trim(g).len() > 0
}

/// Whether a match gives a link: one of the Markdown link pattern unless its URL is
/// empty, or a web address or an anchor and no file of a note; one of the wikilink
/// pattern if it has a target.
pub open spec fn gives_link(m: MatchModel, markdown: bool) -> bool {
    if markdown {
        has_text(m, 2) && (begins_web_address(m) || begins_anchor(m) ==> ends_note_file(m))
    } else {
        has_text(m, 2)
    }
}

/// Whether a text is that of a group, trimmed, or is missing as the group is.
pub open spec fn tells_group(o: Option<Seq<char>>, m: MatchModel, n: int) -> bool {
    match (o, group(m, n)) {
        (Some(s), Some(g)) => s == trim(g),
        (None, None) => true,
        _ => false,
    }
}

/// Whether a link says what a match says, and where the match stands.
pub open spec fn tells_match(l: LinkModel, m: MatchModel, markdown: bool) -> bool {
    &&& m.start < usize::MAX ==> l.col_start == m.start + 1
    &&& l.col_end == m.end
    &&& if markdown {
        &&& l.link_type == LinkType::Markdown
        &&& group(m, 2) matches Some(g) && l.target_note == trim_end_str(trim(g), ".md"@)
        &&& l.target_heading is None
        &&& l.target_block is None
        &&& tells_group(l.alias, m, 1)
    } else {
        &&& group(m, 1) is Some ==> l.link_type == LinkType::Embed
        &&& group(m, 1) is None ==> l.link_type == LinkType::Wikilink
        &&& group(m, 2) matches Some(g) && l.target_note == trim(g)
        &&& tells_group(l.target_heading, m, 4)
        &&& group(m, 3) is Some ==> tells_group(l.target_block, m, 3)
        &&& group(m, 3) is None && group(m, 5) is Some ==> tells_group(l.target_block, m, 5)
        &&& group(m, 3) is None && group(m, 5) is None ==> tells_group(l.target_block, m, 6)
        &&& tells_group(l.alias, m, 7)
    }
}

/// Whether a link stands at a place.
pub open spec fn stands_in(l: LinkModel, at: PlaceModel) -> bool {
    l.line_number == at.line && l.context_snippet == at.snippet && l.source_section_id == at.section
}

/// One match of the Markdown link pattern: a web address that names no file of a note
/// gives no link, nor does an anchor, nor an empty URL; anything else gives one.
/// A match of the wikilink pattern gives a link if it has a target.
pub proof fn match_gives_its_link(m: MatchModel, at: PlaceModel)
    ensures
        begins_web_address(m) && !ends_note_file(m) ==> markdown_link_of(m, at) is None,
        begins_anchor(m) && !ends_note_file(m) ==> markdown_link_of(m, at) is None,
        markdown_link_of(m, at) is Some <==> gives_link(m, true),
        markdown_link_of(m, at) matches Some(l) ==> tells_match(l, m, true) && stands_in(l, at),
        wikilink_of(m, at) is Some <==> gives_link(m, false),
        wikilink_of(m, at) matches Some(l) ==> tells_match(l, m, false) && stands_in(l, at),
{
    reveal_strlit("#");
    reveal_strlit("http://");
    reveal_strlit("https://");
    reveal_strlit(".md");
    match group(m, 2) {
        Some(g) => {
            let url = trim(g);
            if url.len() > 0 && url[0] == '#' {
                assert("#"@ =~= url.take(1));
                assert("#"@.is_prefix_of(url));
            }
            if "#"@.is_prefix_of(url) {
                assert(url.take(1)[0] == '#');
            }
        },
        None => {},
    }
}

/// The links of a line are those that its matches give, one each and in their order.
pub proof fn line_gives_its_links(ms: Seq<MatchModel>, at: PlaceModel, markdown: bool)
    ensures
        links_of(ms, at, markdown).len() == ms.filter(
            |m: MatchModel| gives_link(m, markdown),
        ).len(),
        forall|x: int|
            #![trigger links_of(ms, at, markdown)[x]]
            0 <= x < links_of(ms, at, markdown).len() ==> tells_match(
                links_of(ms, at, markdown)[x],
                ms.filter(|m: MatchModel| gives_link(m, markdown))[x],
                markdown,
            ) && stands_in(links_of(ms, at, markdown)[x], at),
    decreases ms.len(),
{
    reveal(Seq::filter);
    if ms.len() > 0 {
        line_gives_its_links(ms.drop_last(), at, markdown);
        match_gives_its_link(ms.last(), at);
    }
}

/// The matches of a pattern that give links, line by line.
pub open spec fn giving_matches(
    found: Seq<LineModel>,
    n: int,
    markdown: bool,
) -> Seq<(int, MatchModel)>
    decreases n,
{
    if n <= 0 {
        Seq::empty()
    } else {
        giving_matches(found, n - 1, markdown) + link_matches(found[n - 1], markdown).filter(
            |m: MatchModel| gives_link(m, markdown),
        ).map_values(|m: MatchModel| (n - 1, m))
    }
}

/// What one of the two link patterns matched in a line.
pub open spec fn link_matches(line: LineModel, markdown: bool) -> Seq<MatchModel> {
    if markdown {
        line.markdown_links
    } else {
        line.wikilinks
    }
}

/// The links of a kind.
pub open spec fn links_written(links: Seq<LinkModel>, markdown: bool) -> Seq<LinkModel> {
    links.filter(|l: LinkModel| (l.link_type == LinkType::Markdown) == markdown)
}

/// Whether the links are those of the matches, one each, and stand in their lines.
pub open spec fn tell_matches(
    links: Seq<LinkModel>,
    ms: Seq<(int, MatchModel)>,
    lines: Seq<Seq<char>>,
    sections: Seq<SectionModel>,
    offset: int,
    markdown: bool,
) -> bool {
    &&& links.len() == ms.len()
    &&& forall|x: int|
        0 <= x < links.len() ==> tells_match(#[trigger] links[x], ms[x].1, markdown) && stands_in(
            links[x],
            place_of(lines, sections, offset, ms[x].0),
        )
}

/// The links of the first `n` lines are those that the matches give: each match that
/// gives a link gives one, in the order of the lines and of the matches, and there is
/// no other. A web address is among them only where it names a note's file.
pub proof fn lines_give_their_links(
    names: Seq<Seq<char>>,
    found: Seq<LineModel>,
    lines: Seq<Seq<char>>,
    sections: Seq<SectionModel>,
    offset: int,
    n: int,
    markdown: bool,
)
    requires
        0 <= n <= found.len(),
    ensures
        tell_matches(
            links_written(references_of(names, found, lines, sections, offset, n).links, markdown),
            giving_matches(found, n, markdown),
            lines,
            sections,
            offset,
            markdown,
        ),
        forall|x: int|
            0 <= x < giving_matches(found, n, markdown).len() ==> 0 <= (
            #[trigger] giving_matches(found, n, markdown)[x]).0 < n,
    decreases n,
{
    let p = |l: LinkModel| (l.link_type == LinkType::Markdown) == markdown;
    let all = links_written(
        references_of(names, found, lines, sections, offset, n).links,
        markdown,
    );
    let ms = giving_matches(found, n, markdown);
    if n == 0 {
        reveal(Seq::filter);
        assert(all.len() == 0);
        assert(ms.len() == 0);
    } else {
        lines_give_their_links(names, found, lines, sections, offset, n - 1, markdown);
        let links = references_of(names, found, lines, sections, offset, n - 1).links;
        let before = links.filter(p);
        let at = place_of(lines, sections, offset, n - 1);
        let wiki = links_of(found[n - 1].wikilinks, at, false);
        let mark = links_of(found[n - 1].markdown_links, at, true);
        line_gives_its_links(found[n - 1].wikilinks, at, false);
        line_gives_its_links(found[n - 1].markdown_links, at, true);
        Seq::filter_distributes_over_add(links + wiki, mark, p);
        Seq::filter_distributes_over_add(links, wiki, p);
        assert(all == before + wiki.filter(p) + mark.filter(p));
        let more = links_of(link_matches(found[n - 1], markdown), at, markdown);
        if markdown {
            lemma_pick_none(wiki, p);
            lemma_pick_all(mark, p);
        } else {
            lemma_pick_all(wiki, p);
            lemma_pick_none(mark, p);
        }
        assert(all =~= before + more);
        let was = giving_matches(found, n - 1, markdown);
        let giving = link_matches(found[n - 1], markdown).filter(
            |m: MatchModel| gives_link(m, markdown),
        );
        assert(more.len() == giving.len());
        assert(before.len() == was.len());
        assert(ms.len() == all.len());
        assert forall|x: int| 0 <= x < all.len() implies tells_match(
            #[trigger] all[x],
            ms[x].1,
            markdown,
        ) && stands_in(all[x], place_of(lines, sections, offset, ms[x].0)) by {
            if x < before.len() {
                assert(all[x] == before[x]);
                assert(ms[x] == was[x]);
            } else {
                assert(all[x] == more[x - before.len()]);
                assert(ms[x] == (n - 1, giving[x - before.len()]));
            }
        }
        assert forall|x: int| 0 <= x < ms.len() implies 0 <= (#[trigger] ms[x]).0 < n by {
            if x < was.len() {
                assert(ms[x] == was[x]);
            } else {
                assert(ms[x] == (n - 1, giving[x - was.len()]));
            }
        }
    }
}

/// Every match that gives a link is among those that do, and no other is.
pub proof fn giving_matches_are_found(found: Seq<LineModel>, n: int, markdown: bool)
    requires
        0 <= n <= found.len(),
    ensures
        forall|x: int|
            #![trigger giving_matches(found, n, markdown)[x]]
            0 <= x < giving_matches(found, n, markdown).len() ==> {
                let (i, m) = giving_matches(found, n, markdown)[x];
                &&& 0 <= i < n
                &&& gives_link(m, markdown)
                &&& link_matches(found[i], markdown).contains(m)
            },
        forall|i: int, m: MatchModel|
            0 <= i < n && gives_link(m, markdown) && #[trigger] link_matches(
                found[i],
                markdown,
            ).contains(m) ==> giving_matches(found, n, markdown).contains((i, m)),
    decreases n,
{
    let all = giving_matches(found, n, markdown);
    if n > 0 {
        giving_matches_are_found(found, n - 1, markdown);
        let before = giving_matches(found, n - 1, markdown);
        let ms = link_matches(found[n - 1], markdown);
        let p = |m: MatchModel| gives_link(m, markdown);
        let giving = ms.filter(p);
        lemma_picked(ms, p);
        assert forall|x: int| #![trigger all[x]] 0 <= x < all.len() implies {
            &&& 0 <= all[x].0 < n
            &&& gives_link(all[x].1, markdown)
            &&& link_matches(found[all[x].0], markdown).contains(all[x].1)
        } by {
            if x < before.len() {
                assert(all[x] == before[x]);
            } else {
                assert(all[x] == (n - 1, giving[x - before.len()]));
                assert(giving.contains(giving[x - before.len()]));
            }
        }
        assert forall|i: int, m: MatchModel|
            0 <= i < n && gives_link(m, markdown) && #[trigger] link_matches(
                found[i],
                markdown,
            ).contains(m) implies all.contains((i, m)) by {
            if i < n - 1 {
                assert(before.contains((i, m)));
                let x = choose|x: int| 0 <= x < before.len() && before[x] == (i, m);
                assert(all[x] == (i, m));
            } else {
                assert(giving.contains(m));
                let x = choose|x: int| 0 <= x < giving.len() && giving[x] == m;
                assert(all[before.len() + x] == (i, m));
            }
        }
    }
}

/// A line belongs to the first section that it lies in, and to none where it lies in
/// none.
pub proof fn line_belongs_where_it_lies(sections: Seq<SectionModel>, line: int, i: int)
    requires
        0 <= i <= sections.len(),
    ensures
        section_at(sections, line, i) matches Some(id) ==> exists|s: int|
            {
                &&& i <= s < sections.len()
                &&& (#[trigger] sections[s]).id == id
                &&& sections[s].line_start <= line <= sections[s].line_end
                &&& forall|k: int|
                    i <= k < s ==> !((#[trigger] sections[k]).line_start <= line
                        <= sections[k].line_end)
            },
        section_at(sections, line, i) is None ==> forall|s: int|
            i <= s < sections.len() ==> !((#[trigger] sections[s]).line_start <= line
                <= sections[s].line_end),
    decreases sections.len() - i,
{
    if i < sections.len() && !(sections[i].line_start <= line <= sections[i].line_end) {
        line_belongs_where_it_lies(sections, line, i + 1);
    }
}

/// Whether a note has a tag on a line.
pub open spec fn has_tag_on(tags: Seq<TagModel>, name: Seq<char>, line: usize) -> bool {
    exists|t: int|
        0 <= t < tags.len() && (#[trigger] tags[t]).name == name && tags[t].line_number == line
}

/// Whether a note has an attribute on a line.
pub open spec fn has_field_on(
    fields: Seq<FieldModel>,
    key: Seq<char>,
    value: Seq<char>,
    line: usize,
) -> bool {
    exists|f: int|
        0 <= f < fields.len() && (#[trigger] fields[f]).key == key && fields[f].value == value
            && fields[f].line_number == line
}

proof fn lemma_tags_of_line(tags: Seq<TagModel>, ms: Seq<MatchModel>, at: PlaceModel)
    ensures
        tags.is_prefix_of(with_tags(tags, ms, at)),
        forall|k: int|
            0 <= k < ms.len() && gives_tag(#[trigger] ms[k]) ==> has_tag_on(
                with_tags(tags, ms, at),
                trim(group(ms[k], 1)->0),
                at.line,
            ),
        forall|t: int|
            tags.len() <= t < with_tags(tags, ms, at).len() ==> {
                let tag = #[trigger] with_tags(tags, ms, at)[t];
                &&& tag.line_number == at.line
                &&& tag.section_id == at.section
                &&& tag.name.len() > 0
                &&& !is_hex_color(tag.name)
                &&& exists|k: int|
                    0 <= k < ms.len() && tells_group(Some(tag.name), #[trigger] ms[k], 1)
            },
    decreases ms.len(),
{
    let r = with_tags(tags, ms, at);
    if ms.len() > 0 {
        let rest = ms.drop_last();
        let before = with_tags(tags, rest, at);
        lemma_tags_of_line(tags, rest, at);
        assert(before.is_prefix_of(r));
        assert forall|k: int|
            0 <= k < ms.len() && gives_tag(#[trigger] ms[k]) implies has_tag_on(
            r,
            trim(group(ms[k], 1)->0),
            at.line,
        ) by {
            let name = trim(group(ms[k], 1)->0);
            if k < rest.len() {
                assert(rest[k] == ms[k]);
                let t = choose|t: int|
                    0 <= t < before.len() && (#[trigger] before[t]).name == name
                        && before[t].line_number == at.line;
                assert(r[t] == before[t]);
            } else if r.len() > before.len() {
                assert(r[before.len() as int].name == name);
            }
        }
        assert forall|t: int| tags.len() <= t < r.len() implies {
            let tag = #[trigger] r[t];
            &&& tag.line_number == at.line
            &&& tag.section_id == at.section
            &&& tag.name.len() > 0
            &&& !is_hex_color(tag.name)
            &&& exists|k: int|
                0 <= k < ms.len() && tells_group(Some(tag.name), #[trigger] ms[k], 1)
        } by {
            if t < before.len() {
                assert(r[t] == before[t]);
                let k = choose|k: int|
                    0 <= k < rest.len() && tells_group(Some(before[t].name), #[trigger] rest[k], 1);
                assert(ms[k] == rest[k]);
            } else {
                assert(tells_group(Some(r[t].name), ms[ms.len() - 1], 1));
            }
        }
    }
}

/// Whether line `i` has the tag of a match: its name, line and section.
pub open spec fn is_tag_of(
    tag: TagModel,
    m: MatchModel,
    sections: Seq<SectionModel>,
    line: int,
) -> bool {
    &&& tells_group(Some(tag.name), m, 1)
    &&& tag.line_number == line as usize
    &&& tag.section_id == section_at(sections, line, 0)
    &&& tag.name.len() > 0
    &&& !is_hex_color(tag.name)
}

/// Whether a match gives a tag: one that is neither empty nor a colour.
pub open spec fn gives_tag(m: MatchModel) -> bool {
    group(m, 1) matches Some(g) && trim(g).len() > 0 && !is_hex_color(trim(g))
}

/// Whether the tags are those of the metadata and those of the first `n` lines.
pub open spec fn tags_are_told(
    names: Seq<Seq<char>>,
    found: Seq<LineModel>,
    sections: Seq<SectionModel>,
    offset: int,
    n: int,
    tags: Seq<TagModel>,
) -> bool {
    &&& tags.len() >= names.len()
    &&& forall|t: int|
        0 <= t < names.len() ==> (#[trigger] tags[t]).name == names[t] && tags[t].line_number == 1
            && tags[t].section_id is None
    &&& forall|i: int, k: int|
        #![trigger found[i].tags[k]]
        0 <= i < n && 0 <= k < found[i].tags.len() && gives_tag(found[i].tags[k]) ==> has_tag_on(
            tags,
            trim(group(found[i].tags[k], 1)->0),
            (offset + i + 1) as usize,
        )
    &&& forall|t: int|
        names.len() <= t < tags.len() ==> is_written_tag(
            found,
            sections,
            offset,
            n,
            #[trigger] tags[t],
        )
}

/// Whether a tag is written in one of the first `n` lines.
pub open spec fn is_written_tag(
    found: Seq<LineModel>,
    sections: Seq<SectionModel>,
    offset: int,
    n: int,
    tag: TagModel,
) -> bool {
    exists|i: int, k: int|
        0 <= i < n && 0 <= k < found[i].tags.len() && is_tag_of(
            tag,
            #[trigger] found[i].tags[k],
            sections,
            offset + i + 1,
        )
}

/// The tags of a note: first those of its metadata, then each tag that is written in
/// a line, unless it is empty or a colour, on the line and in the section where it
/// stands, and no other.
pub proof fn lines_give_their_tags(
    names: Seq<Seq<char>>,
    found: Seq<LineModel>,
    lines: Seq<Seq<char>>,
    sections: Seq<SectionModel>,
    offset: int,
    n: int,
)
    requires
        0 <= n <= found.len(),
    ensures
        tags_are_told(
            names,
            found,
            sections,
            offset,
            n,
            references_of(names, found, lines, sections, offset, n).tags,
        ),
    decreases n,
{
    let tags = references_of(names, found, lines, sections, offset, n).tags;
    if n > 0 {
        lines_give_their_tags(names, found, lines, sections, offset, n - 1);
        let before = references_of(names, found, lines, sections, offset, n - 1).tags;
        let at = place_of(lines, sections, offset, n - 1);
        let ms = found[n - 1].tags;
        lemma_tags_of_line(before, ms, at);
        assert forall|t: int| 0 <= t < before.len() implies #[trigger] tags[t] == before[t] by {}
        assert forall|i: int, k: int|
            #![trigger found[i].tags[k]]
            0 <= i < n && 0 <= k < found[i].tags.len() && gives_tag(
                found[i].tags[k],
            ) implies has_tag_on(
            tags,
            trim(group(found[i].tags[k], 1)->0),
            (offset + i + 1) as usize,
        ) by {
            let name = trim(group(found[i].tags[k], 1)->0);
            let line = (offset + i + 1) as usize;
            if i < n - 1 {
                assert(has_tag_on(before, name, line));
                let t = choose|t: int|
                    0 <= t < before.len() && (#[trigger] before[t]).name == name
                        && before[t].line_number == line;
                assert(tags[t] == before[t]);
            } else {
                assert(ms[k] == found[i].tags[k]);
            }
        }
        assert forall|t: int| names.len() <= t < tags.len() implies is_written_tag(
            found,
            sections,
            offset,
            n,
            #[trigger] tags[t],
        ) by {
            if t < before.len() {
                assert(tags[t] == before[t]);
                let (i, k) = choose|i: int, k: int|
                    0 <= i < n - 1 && 0 <= k < found[i].tags.len() && is_tag_of(
                        before[t],
                        #[trigger] found[i].tags[k],
                        sections,
                        offset + i + 1,
                    );
                assert(is_tag_of(tags[t], found[i].tags[k], sections, offset + i + 1));
            } else {
                let k = choose|k: int|
                    0 <= k < ms.len() && tells_group(Some(tags[t].name), #[trigger] ms[k], 1);
                assert(is_tag_of(tags[t], found[n - 1].tags[k], sections, offset + n));
            }
        }
    }
}

proof fn lemma_fields_of_line(fields: Seq<FieldModel>, ms: Seq<MatchModel>, at: PlaceModel, once: bool)
    ensures
        fields.is_prefix_of(with_fields(fields, ms, at, once)),
        forall|k: int|
            0 <= k < ms.len() && group(#[trigger] ms[k], 1) is Some && group(ms[k], 2) is Some
                ==> if once {
                exists|f: int|
                    0 <= f < with_fields(fields, ms, at, once).len() && (
                    #[trigger] with_fields(fields, ms, at, once)[f]).key == trim(
                        group(ms[k], 1)->0,
                    ) && with_fields(fields, ms, at, once)[f].line_number == at.line
            } else {
                has_field_on(
                    with_fields(fields, ms, at, once),
                    trim(group(ms[k], 1)->0),
                    trim(group(ms[k], 2)->0),
                    at.line,
                )
            },
        forall|f: int|
            fields.len() <= f < with_fields(fields, ms, at, once).len() ==> {
                let field = #[trigger] with_fields(fields, ms, at, once)[f];
                &&& field.line_number == at.line
                &&& field.section_id == at.section
                &&& exists|k: int|
                    0 <= k < ms.len() && tells_group(Some(field.key), #[trigger] ms[k], 1)
                        && tells_group(Some(field.value), ms[k], 2)
            },
        once ==> forall|e: int, f: int|
            0 <= e < f && fields.len() <= f < with_fields(fields, ms, at, once).len()
                && with_fields(fields, ms, at, once)[e].line_number == at.line ==> (
            #[trigger] with_fields(fields, ms, at, once)[e]).key != (#[trigger] with_fields(
                fields,
                ms,
                at,
                once,
            )[f]).key,
    decreases ms.len(),
{
    let r = with_fields(fields, ms, at, once);
    if ms.len() > 0 {
        let rest = ms.drop_last();
        let before = with_fields(fields, rest, at, once);
        lemma_fields_of_line(fields, rest, at, once);
        assert(before.is_prefix_of(r));
        assert forall|k: int|
            0 <= k < ms.len() && group(#[trigger] ms[k], 1) is Some && group(ms[k], 2) is Some implies if once {
            exists|f: int|
                0 <= f < r.len() && (#[trigger] r[f]).key == trim(group(ms[k], 1)->0)
                    && r[f].line_number == at.line
        } else {
            has_field_on(r, trim(group(ms[k], 1)->0), trim(group(ms[k], 2)->0), at.line)
        } by {
            let key = trim(group(ms[k], 1)->0);
            let value = trim(group(ms[k], 2)->0);
            if k < rest.len() {
                assert(rest[k] == ms[k]);
                if once {
                    let f = choose|f: int|
                        0 <= f < before.len() && (#[trigger] before[f]).key == key
                            && before[f].line_number == at.line;
                    assert(r[f] == before[f]);
                } else {
                    let f = choose|f: int|
                        0 <= f < before.len() && (#[trigger] before[f]).key == key
                            && before[f].value == value && before[f].line_number == at.line;
                    assert(r[f] == before[f]);
                }
            } else if r.len() > before.len() {
                assert(r[before.len() as int].key == key);
            } else {
                assert(has_field(before, key, at.line));
            }
        }
        assert forall|f: int| fields.len() <= f < r.len() implies {
            let field = #[trigger] r[f];
            &&& field.line_number == at.line
            &&& field.section_id == at.section
            &&& exists|k: int|
                0 <= k < ms.len() && tells_group(Some(field.key), #[trigger] ms[k], 1)
                    && tells_group(Some(field.value), ms[k], 2)
        } by {
            if f < before.len() {
                assert(r[f] == before[f]);
                let k = choose|k: int|
                    0 <= k < rest.len() && tells_group(Some(before[f].key), #[trigger] rest[k], 1)
                        && tells_group(Some(before[f].value), rest[k], 2);
                assert(ms[k] == rest[k]);
            } else {
                assert(tells_group(Some(r[f].key), ms[ms.len() - 1], 1));
            }
        }
        if once {
            assert forall|e: int, f: int|
                0 <= e < f && fields.len() <= f < r.len() && r[e].line_number == at.line implies (
            #[trigger] r[e]).key != (#[trigger] r[f]).key by {
                assert(r[e] == before[e]);
                if f < before.len() {
                    assert(r[f] == before[f]);
                } else {
                    assert(!has_field(before, r[f].key, at.line));
                }
            }
        }
    }
}

/// Whether an attribute is that of a match in a line.
pub open spec fn is_field_of(
    field: FieldModel,
    m: MatchModel,
    sections: Seq<SectionModel>,
    line: int,
) -> bool {
    &&& tells_group(Some(field.key), m, 1)
    &&& tells_group(Some(field.value), m, 2)
    &&& field.line_number == line as usize
    &&& field.section_id == section_at(sections, line, 0)
}

/// Whether a match gives an attribute: one with a key and a value.
pub open spec fn gives_field(m: MatchModel) -> bool {
    group(m, 1) is Some && group(m, 2) is Some
}

/// Whether the attributes are those of the first `n` lines.
pub open spec fn attributes_are_told(
    found: Seq<LineModel>,
    sections: Seq<SectionModel>,
    offset: int,
    n: int,
    fields: Seq<FieldModel>,
) -> bool {
    &&& forall|i: int, k: int|
        #![trigger found[i].bracket_fields[k]]
        0 <= i < n && 0 <= k < found[i].bracket_fields.len() && gives_field(
            found[i].bracket_fields[k],
        ) ==> has_field_on(
            fields,
            trim(group(found[i].bracket_fields[k], 1)->0),
            trim(group(found[i].bracket_fields[k], 2)->0),
            (offset + i + 1) as usize,
        )
    &&& forall|i: int, k: int|
        #![trigger found[i].inline_fields[k]]
        0 <= i < n && 0 <= k < found[i].inline_fields.len() && gives_field(
            found[i].inline_fields[k],
        ) ==> has_field(
            fields,
            trim(group(found[i].inline_fields[k], 1)->0),
            (offset + i + 1) as usize,
        )
    &&& forall|f: int|
        0 <= f < fields.len() ==> is_written_field(
            found,
            sections,
            offset,
            n,
            #[trigger] fields[f],
        )
}

/// Whether an attribute is written in one of the first `n` lines.
pub open spec fn is_written_field(
    found: Seq<LineModel>,
    sections: Seq<SectionModel>,
    offset: int,
    n: int,
    field: FieldModel,
) -> bool {
    exists|i: int, m: MatchModel|
        0 <= i < n && #[trigger] is_field_match(found[i], m) && is_field_of(
            field,
            m,
            sections,
            offset + i + 1,
        )
}

/// The attributes of a note: every bracketed attribute of a line, and every other one
/// whose key the line has not yet had, each on the line and in the section where it
/// stands, and no other. Where a key is told more than once on a line, all but one are
/// in brackets.
pub proof fn lines_give_their_attributes(
    names: Seq<Seq<char>>,
    found: Seq<LineModel>,
    lines: Seq<Seq<char>>,
    sections: Seq<SectionModel>,
    offset: int,
    n: int,
)
    requires
        0 <= n <= found.len(),
    ensures
        attributes_are_told(
            found,
            sections,
            offset,
            n,
            references_of(names, found, lines, sections, offset, n).attributes,
        ),
    decreases n,
{
    let fields = references_of(names, found, lines, sections, offset, n).attributes;
    if n > 0 {
        lines_give_their_attributes(names, found, lines, sections, offset, n - 1);
        let before = references_of(names, found, lines, sections, offset, n - 1).attributes;
        let at = place_of(lines, sections, offset, n - 1);
        let line = found[n - 1];
        let mid = with_fields(before, line.bracket_fields, at, false);
        lemma_fields_of_line(before, line.bracket_fields, at, false);
        lemma_fields_of_line(mid, line.inline_fields, at, true);
        assert forall|f: int| 0 <= f < before.len() implies fields[f] == #[trigger] before[f] by {
            assert(mid[f] == before[f]);
        }
        assert forall|f: int| 0 <= f < mid.len() implies fields[f] == #[trigger] mid[f] by {}
        assert forall|i: int, k: int|
            #![trigger found[i].bracket_fields[k]]
            0 <= i < n && 0 <= k < found[i].bracket_fields.len() && gives_field(
                found[i].bracket_fields[k],
            ) implies has_field_on(
            fields,
            trim(group(found[i].bracket_fields[k], 1)->0),
            trim(group(found[i].bracket_fields[k], 2)->0),
            (offset + i + 1) as usize,
        ) by {
            let key = trim(group(found[i].bracket_fields[k], 1)->0);
            let value = trim(group(found[i].bracket_fields[k], 2)->0);
            let at_line = (offset + i + 1) as usize;
            let s = if i < n - 1 {
                before
            } else {
                mid
            };
            assert(has_field_on(s, key, value, at_line));
            let f = choose|f: int|
                0 <= f < s.len() && (#[trigger] s[f]).key == key && s[f].value == value
                    && s[f].line_number == at_line;
            assert(fields[f] == s[f]);
        }
        assert forall|i: int, k: int|
            #![trigger found[i].inline_fields[k]]
            0 <= i < n && 0 <= k < found[i].inline_fields.len() && gives_field(
                found[i].inline_fields[k],
            ) implies has_field(
            fields,
            trim(group(found[i].inline_fields[k], 1)->0),
            (offset + i + 1) as usize,
        ) by {
            let key = trim(group(found[i].inline_fields[k], 1)->0);
            let at_line = (offset + i + 1) as usize;
            if i < n - 1 {
                assert(has_field(before, key, at_line));
                let f = choose|f: int|
                    0 <= f < before.len() && (#[trigger] before[f]).key == key
                        && before[f].line_number == at_line;
                assert(fields[f] == before[f]);
            } else {
                assert(line.inline_fields[k] == found[i].inline_fields[k]);
            }
        }
        assert forall|f: int| 0 <= f < fields.len() implies is_written_field(
            found,
            sections,
            offset,
            n,
            #[trigger] fields[f],
        ) by {
            if f < before.len() {
                assert(fields[f] == before[f]);
                let (i, m) = choose|i: int, m: MatchModel|
                    0 <= i < n - 1 && #[trigger] is_field_match(found[i], m) && is_field_of(
                        before[f],
                        m,
                        sections,
                        offset + i + 1,
                    );
                assert(is_field_match(found[i], m));
            } else if f < mid.len() {
                assert(fields[f] == mid[f]);
                let k = choose|k: int|
                    0 <= k < line.bracket_fields.len() && tells_group(
                        Some(mid[f].key),
                        #[trigger] line.bracket_fields[k],
                        1,
                    ) && tells_group(Some(mid[f].value), line.bracket_fields[k], 2);
                assert(is_field_match(found[n - 1], line.bracket_fields[k]));
                assert(is_field_of(fields[f], line.bracket_fields[k], sections, offset + n));
            } else {
                let k = choose|k: int|
                    0 <= k < line.inline_fields.len() && tells_group(
                        Some(fields[f].key),
                        #[trigger] line.inline_fields[k],
                        1,
                    ) && tells_group(Some(fields[f].value), line.inline_fields[k], 2);
                assert(is_field_match(found[n - 1], line.inline_fields[k]));
                assert(is_field_of(fields[f], line.inline_fields[k], sections, offset + n));
            }
        }
    }
}

/// Whether a match of one of the attribute patterns is in the line.
pub open spec fn is_field_match(line: LineModel, m: MatchModel) -> bool {
    line.bracket_fields.contains(m) || line.inline_fields.contains(m)
}

/// What a line refers to comes behind what the lines before it refer to.
pub proof fn later_lines_add_behind(
    names: Seq<Seq<char>>,
    found: Seq<LineModel>,
    lines: Seq<Seq<char>>,
    sections: Seq<SectionModel>,
    offset: int,
    n: int,
)
    requires
        0 <= n < found.len(),
    ensures
        ({
            let before = references_of(names, found, lines, sections, offset, n);
            let after = references_of(names, found, lines, sections, offset, n + 1);
            &&& before.links.is_prefix_of(after.links)
            &&& before.tags.is_prefix_of(after.tags)
            &&& before.attributes.is_prefix_of(after.attributes)
        }),
{
    let before = references_of(names, found, lines, sections, offset, n);
    let after = references_of(names, found, lines, sections, offset, n + 1);
    let at = place_of(lines, sections, offset, n);
    lemma_tags_of_line(before.tags, found[n].tags, at);
    let mid = with_fields(before.attributes, found[n].bracket_fields, at, false);
    lemma_fields_of_line(before.attributes, found[n].bracket_fields, at, false);
    lemma_fields_of_line(mid, found[n].inline_fields, at, true);
    assert(after.links.take(before.links.len() as int) =~= before.links);
    let k = before.attributes.len() as int;
    assert(mid.take(k) =~= before.attributes);
    assert(after.attributes.take(mid.len() as int) =~= mid);
    assert(after.attributes.take(k) =~= before.attributes) by {
        assert forall|i: int| 0 <= i < k implies after.attributes[i] == before.attributes[i] by {
            assert(after.attributes.take(mid.len() as int)[i] == mid[i]);
            assert(mid.take(k)[i] == before.attributes[i]);
        }
    }
}

} // verus!
