//! Headings, the sections they open, and the chunks that sections are cut into.

use crate::ast::{AstChunk, AstSection, ChunkModel, SectionModel};
use crate::fences::{fence_open, is_fenced, read_line, Fence};
use crate::matching::{group, Match, MatchModel};
use crate::text::{
    all_ascii, ascii_lower, char_is_alphanumeric, chars_of, cut_pieces_join_again, decimal,
    group_views, is_alnum, is_ascii_char, is_white, join, joined_parts_join, lines_of, lowercase,
    opt_view, push_decimal, split_on, split_on_nonempty, split_str, str_join, str_lines, str_split,
    str_split_str, str_trim, str_words, to_lowercase, trim, trimming_takes_white_space_off, views,
    white_space_parts_words, words_of,
};
use vstd::prelude::*;
use vstd::utf8::encode_utf8;

verus! {

// ---------------------------------------------------------------------------
// Slugs
// ---------------------------------------------------------------------------

/// The parts that are not empty.
pub open spec fn nonempty(parts: Seq<Seq<char>>) -> Seq<Seq<char>>
    decreases parts.len(),
{
    if parts.len() == 0 {
        Seq::empty()
    } else if parts.last().len() == 0 {
        nonempty(parts.drop_last())
    } else {
        nonempty(parts.drop_last()).push(parts.last())
    }
}

/// The text with everything but letters and numbers turned into hyphens.
pub open spec fn hyphenated(s: Seq<char>) -> Seq<char> {
    s.map_values(|c: char| if is_alnum(c) { c } else { '-' })
}

/// The slug of a text: its stretches of letters and numbers in lower case,
/// joined by single hyphens.
pub open spec fn slug_of(s: Seq<char>) -> Seq<char> {
    join(nonempty(split_on(hyphenated(lowercase(s)), '-')), "-"@)
}

/// The slug of a text.
pub fn slugify(s: &str) -> (r: String)
    ensures
        r@ == slug_of(s@),
{
    broadcast use group_views;

    let lower = to_lowercase(s);
    let v = chars_of(lower.as_str());
    let mut mapped = String::new();
    let ghost wanted = hyphenated(v@);
    let mut i: usize = 0;
    assert(mapped@ =~= wanted.take(0));
    while i < v.len()
        invariant
            i <= v@.len(),
            wanted == hyphenated(v@),
            mapped@ == wanted.take(i as int),
        decreases v.len() - i,
    {
        let c = v[i];
        mapped.push(
            if char_is_alphanumeric(c) {
                c
            } else {
                '-'
            },
        );
        i += 1;
        assert(wanted.take(i as int) =~= wanted.take(i as int - 1).push(wanted[i as int - 1]));
    }
    assert(wanted.take(i as int) =~= wanted);

    let parts = str_split(mapped.as_str(), '-');
    let ghost all = views(parts@);
    let mut kept: Vec<String> = Vec::new();
    let mut j: usize = 0;
    while j < parts.len()
        invariant
            j <= parts@.len(),
            all == views(parts@),
            views(kept@) == nonempty(all.take(j as int)),
        decreases parts.len() - j,
    {
        if !parts[j].as_str().is_empty() {
            kept.push(parts[j].clone());
        }
        j += 1;
        assert(all.take(j as int).drop_last() =~= all.take(j as int - 1));
    }
    assert(all.take(j as int) =~= all);
    str_join(&kept, "-")
}

// ---------------------------------------------------------------------------
// Headings
// ---------------------------------------------------------------------------

/// A heading line: its level, its text, and the number of its line in the file.
#[derive(Debug)]
pub struct Heading {
    pub level: u8,
    pub title: String,
    pub line: usize,
}

/// What a `Heading` says.
pub struct HeadingModel {
    pub level: u8,
    pub title: Seq<char>,
    pub line: usize,
}

impl View for Heading {
    type V = HeadingModel;

    open spec fn view(&self) -> HeadingModel {
        HeadingModel { level: self.level, title: self.title@, line: self.line }
    }
}

/// The level and the title that a match of the heading pattern gives: the
/// length of the hashes, and the trimmed rest.
pub open spec fn heading_parts(m: MatchModel) -> Option<(u8, Seq<char>)> {
    match (group(m, 1), group(m, 2)) {
        (Some(hashes), Some(title)) => Some(
            ((encode_utf8(hashes).len() as usize) as u8, trim(title)),
        ),
        _ => None,
    }
}

/// The headings of the lines: the lines outside fenced blocks in which the
/// heading pattern matched. `found` holds the matches of each line.
pub open spec fn headings_of(
    lines: Seq<Seq<char>>,
    found: Seq<Seq<MatchModel>>,
    offset: nat,
) -> Seq<HeadingModel>
    decreases lines.len(),
{
    if lines.len() == 0 {
        Seq::empty()
    } else {
        let before = headings_of(lines.drop_last(), found.drop_last(), offset);
        if is_fenced(fence_open(lines.drop_last()), lines.last()) || found.last().len() == 0 {
            before
        } else {
            match heading_parts(found.last()[0]) {
                Some((level, title)) => before.push(
                    HeadingModel { level, title, line: (offset + lines.len()) as usize },
                ),
                None => before,
            }
        }
    }
}

/// The matches found in one line.
#[derive(Debug)]
pub struct Found {
    pub matches: Vec<Match>,
}

impl View for Found {
    type V = Seq<MatchModel>;

    open spec fn view(&self) -> Seq<MatchModel> {
        views(self.matches@)
    }
}

/// A copy of group `n` of a match.
pub fn group_text(m: &Match, n: usize) -> (r: Option<String>)
    ensures
        opt_view(r) == group(m@, n as int),
{
    if n < m.groups.len() {
        assert(m@.groups[n as int] == opt_view(m.groups@[n as int]));
        crate::text::clone_opt(&m.groups[n])
    } else {
        None
    }
}

/// Finds the headings of the lines, from what the heading pattern matched in
/// each.
pub fn scan_headings(lines: &Vec<String>, found: &Vec<Found>, offset: usize) -> (r: Vec<Heading>)
    requires
        found@.len() == lines@.len(),
        offset + lines@.len() <= usize::MAX,
    ensures
        views(r@) == headings_of(views(lines@), views(found@), offset as nat),
{
    broadcast use group_views;

    let mut out: Vec<Heading> = Vec::new();
    let mut open: Option<Fence> = None;
    let ghost all = views(lines@);
    let ghost hits = views(found@);
    let mut i: usize = 0;
    while i < lines.len()
        invariant
            i <= lines@.len(),
            found@.len() == lines@.len(),
            offset + lines@.len() <= usize::MAX,
            all == views(lines@),
            hits == views(found@),
            open == fence_open(all.take(i as int)),
            views(out@) == headings_of(all.take(i as int), hits.take(i as int), offset as nat),
        decreases lines.len() - i,
    {
        assert(all.take(i as int + 1).drop_last() =~= all.take(i as int));
        assert(hits.take(i as int + 1).drop_last() =~= hits.take(i as int));
        assert(hits[i as int] == views(found@[i as int].matches@));
        let line = chars_of(lines[i].as_str());
        let (fenced, next) = read_line(open, line.as_slice());
        open = next;
        if !fenced && found[i].matches.len() > 0 {
            let m = &found[i].matches[0];
            assert(hits[i as int][0] == m@);
            if let (Some(hashes), Some(title)) = (group_text(m, 1), group_text(m, 2)) {
                let n: usize = hashes.as_str().len();
                out.push(
                    Heading {
                        level: n as u8,
                        title: str_trim(title.as_str()),
                        line: offset + i + 1,
                    },
                );
            }
        }
        i += 1;
    }
    assert(all.take(i as int) =~= all);
    assert(hits.take(i as int) =~= hits);
    out
}

// ---------------------------------------------------------------------------
// Sections
// ---------------------------------------------------------------------------

/// The last heading before `i` whose level is below `level`, or -1.
pub open spec fn enclosing(hs: Seq<HeadingModel>, level: u8, i: int) -> int
    decreases i,
{
    if i <= 0 {
        -1
    } else if hs[i - 1].level < level {
        i - 1
    } else {
        enclosing(hs, level, i - 1)
    }
}

/// The heading under which heading `i` stands, or -1.
pub open spec fn parent_of(hs: Seq<HeadingModel>, i: int) -> int {
    enclosing(hs, hs[i].level, i)
}

/// An enclosing heading stands before, with a lower level, and every heading in
/// between has a level that is not lower.
pub proof fn lemma_enclosing(hs: Seq<HeadingModel>, level: u8, i: int)
    requires
        0 <= i <= hs.len(),
    ensures
        -1 <= enclosing(hs, level, i) < i || (i == 0 && enclosing(hs, level, i) == -1),
        enclosing(hs, level, i) >= 0 ==> hs[enclosing(hs, level, i)].level < level,
        forall|k: int| enclosing(hs, level, i) < k < i ==> (#[trigger] hs[k]).level >= level,
    decreases i,
{
    if i > 0 && !(hs[i - 1].level < level) {
        lemma_enclosing(hs, level, i - 1);
    }
}

/// The headings that heading `i` stands under, outermost first.
pub open spec fn ancestors(hs: Seq<HeadingModel>, i: int) -> Seq<int>
    decreases i,
    when 0 <= i < hs.len()
    via ancestors_go_back
{
    let p = parent_of(hs, i);
    if p < 0 {
        Seq::empty()
    } else {
        ancestors(hs, p).push(p)
    }
}

#[via_fn]
proof fn ancestors_go_back(hs: Seq<HeadingModel>, i: int) {
    lemma_enclosing(hs, hs[i].level, i);
}

/// The identifier of the section that heading `i` opens.
pub open spec fn section_id(slug: Seq<char>, i: int, title: Seq<char>) -> Seq<char> {
    slug + "::"@ + decimal(i as nat) + "#"@ + slug_of(title)
}

/// The last line of the section that heading `i` opens: the one before the next
/// heading, or the last of the note.
pub open spec fn section_end(hs: Seq<HeadingModel>, i: int, last_line: int) -> int {
    if i + 1 < hs.len() {
        if hs[i + 1].line >= 1 {
            hs[i + 1].line - 1
        } else {
            0
        }
    } else {
        last_line
    }
}

/// The lines from number `from` to number `to` of a body that begins behind
/// line `offset`, joined.
pub open spec fn lines_between(lines: Seq<Seq<char>>, offset: int, from: int, to: int) -> Seq<
    char,
> {
    let start = if from >= offset + 1 {
        from - offset - 1
    } else {
        0
    };
    let upto = if to < offset {
        0
    } else if to - offset < lines.len() {
        to - offset
    } else {
        lines.len() as int
    };
    if start < lines.len() && start < upto {
        join(lines.subrange(start, upto), "\n"@)
    } else {
        Seq::empty()
    }
}

/// The section that heading `i` opens.
pub open spec fn section_of(
    slug: Seq<char>,
    hs: Seq<HeadingModel>,
    lines: Seq<Seq<char>>,
    offset: int,
    i: int,
) -> SectionModel {
    let total = if lines.len() >= 1 {
        lines.len() as int
    } else {
        1
    };
    let end = section_end(hs, i, offset + total);
    let p = parent_of(hs, i);
    SectionModel {
        id: section_id(slug, i, hs[i].title),
        heading: hs[i].title,
        level: hs[i].level,
        parent_id: if p < 0 {
            None
        } else {
            Some(section_id(slug, p, hs[p].title))
        },
        breadcrumbs: ancestors(hs, i).map_values(|a: int| hs[a].title).push(hs[i].title),
        line_start: hs[i].line,
        line_end: end as usize,
        content: lines_between(lines, offset, hs[i].line as int, end),
    }
}

/// The one section of a note without headings.
pub open spec fn overview_section(
    slug: Seq<char>,
    title: Seq<char>,
    lines: Seq<Seq<char>>,
    body: Seq<char>,
    offset: int,
) -> SectionModel {
    let total = if lines.len() >= 1 {
        lines.len() as int
    } else {
        1
    };
    SectionModel {
        id: slug + "#overview"@,
        heading: title,
        level: 1,
        parent_id: None,
        breadcrumbs: seq![title],
        line_start: (offset + 1) as usize,
        line_end: (offset + total) as usize,
        content: trim(body),
    }
}

/// The sections of a note: one for each heading, or a single one named after
/// the note where there is no heading.
pub open spec fn sections_of(
    slug: Seq<char>,
    title: Seq<char>,
    hs: Seq<HeadingModel>,
    lines: Seq<Seq<char>>,
    body: Seq<char>,
    offset: int,
) -> Seq<SectionModel> {
    if hs.len() == 0 {
        seq![overview_section(slug, title, lines, body, offset)]
    } else {
        Seq::new(hs.len(), |i: int| section_of(slug, hs, lines, offset, i))
    }
}

/// The headings on the way from the top to heading `i`, that one included.
spec fn chain(hs: Seq<HeadingModel>, i: int) -> Seq<int> {
    if i < 0 {
        Seq::empty()
    } else {
        ancestors(hs, i).push(i)
    }
}

/// Between a heading and the one it stands under, no heading has a lower level
/// than it, so the search for a level that is not above its own may skip them.
proof fn lemma_skip_to_parent(hs: Seq<HeadingModel>, j: int, level: u8)
    requires
        0 <= j < hs.len(),
        level <= hs[j].level,
    ensures
        enclosing(hs, level, j) == enclosing(hs, level, parent_of(hs, j) + 1),
{
    lemma_enclosing(hs, hs[j].level, j);
    lemma_skip_run(hs, level, parent_of(hs, j) + 1, j);
}

proof fn lemma_skip_run(hs: Seq<HeadingModel>, level: u8, from: int, to: int)
    requires
        0 <= from <= to <= hs.len(),
        forall|k: int| from <= k < to ==> (#[trigger] hs[k]).level >= level,
    ensures
        enclosing(hs, level, to) == enclosing(hs, level, from),
    decreases to - from,
{
    if from < to {
        lemma_skip_run(hs, level, from, to - 1);
    }
}

fn section_id_text(slug: &str, i: usize, title: &str) -> (r: String)
    ensures
        r@ == section_id(slug@, i as int, title@),
{
    let mut id = slug.to_owned();
    id.append("::");
    push_decimal(&mut id, i);
    id.append("#");
    let s = slugify(title);
    id.append(s.as_str());
    id
}

fn join_lines(lines: &Vec<String>, from: usize, to: usize) -> (r: String)
    requires
        from <= to <= lines@.len(),
    ensures
        r@ == join(views(lines@).subrange(from as int, to as int), "\n"@),
{
    broadcast use group_views;

    let mut part: Vec<String> = Vec::new();
    let ghost all = views(lines@);
    let mut k: usize = from;
    assert(views(part@) =~= all.subrange(from as int, from as int));
    while k < to
        invariant
            from <= k <= to <= lines@.len(),
            all == views(lines@),
            views(part@) == all.subrange(from as int, k as int),
        decreases to - k,
    {
        part.push(lines[k].clone());
        k += 1;
        assert(all.subrange(from as int, k as int) =~= all.subrange(from as int, k as int - 1).push(
            all[k as int - 1],
        ));
    }
    str_join(&part, "\n")
}

fn lines_between_text(lines: &Vec<String>, offset: usize, from: usize, to: usize) -> (r: String)
    requires
        offset < usize::MAX,
    ensures
        r@ == lines_between(views(lines@), offset as int, from as int, to as int),
{
    let start: usize = from.saturating_sub(offset + 1);
    let reach: usize = to.saturating_sub(offset);
    let upto: usize = if reach < lines.len() {
        reach
    } else {
        lines.len()
    };
    if start < lines.len() && start < upto {
        join_lines(lines, start, upto)
    } else {
        String::new()
    }
}

/// Builds the sections of a note.
pub fn build_sections(
    slug: &str,
    title: &str,
    headings: &Vec<Heading>,
    lines: &Vec<String>,
    body: &str,
    offset: usize,
) -> (r: Vec<AstSection>)
    requires
        offset + lines@.len() <= usize::MAX,
        offset < usize::MAX,
    ensures
        views(r@) == sections_of(
            slug@,
            title@,
            views(headings@),
            views(lines@),
            body@,
            offset as int,
        ),
{
    broadcast use group_views;

    let total: usize = if lines.len() >= 1 {
        lines.len()
    } else {
        1
    };
    let ghost hs = views(headings@);
    let ghost all = views(lines@);
    let mut out: Vec<AstSection> = Vec::new();
    if headings.len() == 0 {
        let mut id = slug.to_owned();
        id.append("#overview");
        let crumbs: Vec<String> = vec![title.to_owned()];
        assert(views(crumbs@) =~= seq![title@]);
        out.push(
            AstSection {
                id,
                heading: title.to_owned(),
                level: 1,
                parent_id: None,
                breadcrumbs: crumbs,
                line_start: offset + 1,
                line_end: offset + total,
                content: str_trim(body),
            },
        );
        assert(views(out@) =~= seq![overview_section(slug@, title@, all, body@, offset as int)]);
        return out;
    }
    let ghost wanted = sections_of(slug@, title@, hs, all, body@, offset as int);
    let mut stack: Vec<usize> = Vec::new();
    let mut i: usize = 0;
    assert(stack@.map_values(|u: usize| u as int) =~= chain(hs, -1));
    while i < headings.len()
        invariant
            i <= headings@.len(),
            hs == views(headings@),
            all == views(lines@),
            offset + lines@.len() <= usize::MAX,
            offset < usize::MAX,
            total == if lines@.len() >= 1 {
                lines@.len()
            } else {
                1
            },
            hs.len() > 0,
            wanted == sections_of(slug@, title@, hs, all, body@, offset as int),
            forall|k: int| 0 <= k < stack@.len() ==> stack@[k] < i,
            stack@.map_values(|u: usize| u as int) == chain(hs, i - 1),
            views(out@) == wanted.take(i as int),
        decreases headings.len() - i,
    {
        let level = headings[i].level;
        assert(hs[i as int].level == level);
        // The stack leads to some heading `top`; whatever encloses heading `i`
        // encloses it from there.
        let ghost mut top: int = i - 1;
        while stack.len() > 0 && headings[stack[stack.len() - 1]].level >= level
            invariant
                i < headings@.len(),
                hs == views(headings@),
                forall|k: int| 0 <= k < stack@.len() ==> stack@[k] < i,
                -1 <= top < i,
                stack@.map_values(|u: usize| u as int) == chain(hs, top),
                enclosing(hs, level, top + 1) == enclosing(hs, level, i as int),
            decreases stack@.len(),
        {
            let ghost before = stack@.map_values(|u: usize| u as int);
            assert(before.last() == top);
            stack.pop();
            assert(stack@.map_values(|u: usize| u as int) =~= before.drop_last());
            proof {
                assert(hs[top].level == headings@[top].level);
                lemma_skip_to_parent(hs, top, level);
                assert(before.drop_last() =~= ancestors(hs, top));
                lemma_enclosing(hs, hs[top].level, top);
                top = parent_of(hs, top);
                assert(ancestors(hs, before.last()) =~= chain(hs, top));
            }
        }
        let ghost marks = stack@.map_values(|u: usize| u as int);
        proof {
            if top >= 0 {
                assert(marks.last() == top);
                assert(stack@.last() == top);
                assert(hs[top].level == headings@[top].level);
            }
            lemma_enclosing(hs, level, i as int);
            assert(parent_of(hs, i as int) == top);
            assert(marks =~= ancestors(hs, i as int));
        }
        let parent_id: Option<String> = if stack.len() > 0 {
            let p: usize = stack[stack.len() - 1];
            assert(hs[p as int] == headings@[p as int]@);
            Some(section_id_text(slug, p, headings[p].title.as_str()))
        } else {
            None
        };
        let mut crumbs: Vec<String> = Vec::new();
        let ghost path = ancestors(hs, i as int).map_values(|a: int| hs[a].title);
        let mut k: usize = 0;
        while k < stack.len()
            invariant
                i < headings@.len(),
                k <= stack@.len(),
                hs == views(headings@),
                marks == stack@.map_values(|u: usize| u as int),
                path == marks.map_values(|a: int| hs[a].title),
                forall|k: int| 0 <= k < stack@.len() ==> stack@[k] < i,
                views(crumbs@) == path.take(k as int),
            decreases stack.len() - k,
        {
            let a: usize = stack[k];
            assert(path[k as int] == headings@[a as int].title@);
            crumbs.push(headings[a].title.clone());
            k += 1;
            assert(path.take(k as int) =~= path.take(k as int - 1).push(path[k as int - 1]));
        }
        assert(path.take(k as int) =~= path);
        crumbs.push(headings[i].title.clone());
        let line_start: usize = headings[i].line;
        let line_end: usize = if i + 1 < headings.len() {
            assert(hs[i + 1] == headings@[i + 1]@);
            headings[i + 1].line.saturating_sub(1)
        } else {
            offset + total
        };
        let content = lines_between_text(lines, offset, line_start, line_end);
        let id = section_id_text(slug, i, headings[i].title.as_str());
        out.push(
            AstSection {
                id,
                heading: headings[i].title.clone(),
                level,
                parent_id,
                breadcrumbs: crumbs,
                line_start,
                line_end,
                content,
            },
        );
        stack.push(i);
        assert(stack@.map_values(|u: usize| u as int) =~= marks.push(i as int));
        let ghost made = out@.last()@;
        let ghost want = section_of(slug@, hs, all, offset as int, i as int);
        assert(made.breadcrumbs =~= want.breadcrumbs);
        assert(made == want);
        i += 1;
        assert(wanted.take(i as int) =~= wanted.take(i as int - 1).push(wanted[i as int - 1]));
    }
    assert(wanted.take(i as int) =~= wanted);
    out
}

/// A section's breadcrumbs lead to it: the last one is its own heading, and
/// behind those of the section it stands under it comes next.
pub proof fn breadcrumbs_extend_parent(
    slug: Seq<char>,
    hs: Seq<HeadingModel>,
    lines: Seq<Seq<char>>,
    offset: int,
    i: int,
)
    requires
        0 <= i < hs.len(),
    ensures
        section_of(slug, hs, lines, offset, i).breadcrumbs.last() == hs[i].title,
        parent_of(hs, i) < 0 ==> section_of(slug, hs, lines, offset, i).breadcrumbs == seq![
            hs[i].title,
        ],
        parent_of(hs, i) >= 0 ==> {
            &&& parent_of(hs, i) < i
            &&& hs[parent_of(hs, i)].level < hs[i].level
            &&& section_of(slug, hs, lines, offset, i).breadcrumbs == section_of(
                slug,
                hs,
                lines,
                offset,
                parent_of(hs, i),
            ).breadcrumbs.push(hs[i].title)
            &&& section_of(slug, hs, lines, offset, i).parent_id == Some(
                section_of(slug, hs, lines, offset, parent_of(hs, i)).id,
            )
        },
{
    lemma_enclosing(hs, hs[i].level, i);
    let p = parent_of(hs, i);
    if p < 0 {
        assert(section_of(slug, hs, lines, offset, i).breadcrumbs =~= seq![hs[i].title]);
    } else {
        assert(section_of(slug, hs, lines, offset, i).breadcrumbs =~= section_of(
            slug,
            hs,
            lines,
            offset,
            p,
        ).breadcrumbs.push(hs[i].title));
    }
}

// ---------------------------------------------------------------------------
// Chunks
// ---------------------------------------------------------------------------

/// Up to this many words a section is one chunk.
pub const WHOLE_SECTION_WORDS: usize = 400;

/// Above this many words a chunk is closed before the next paragraph.
pub const CHUNK_WORDS: usize = 300;

/// Chunk `sub` of section `i`.
pub open spec fn chunk_of(
    slug: Seq<char>,
    title: Seq<char>,
    i: int,
    sec: SectionModel,
    sub: nat,
    content: Seq<char>,
) -> ChunkModel {
    ChunkModel {
        chunk_id: slug + "::"@ + decimal(i as nat) + "::"@ + decimal(sub),
        section_id: Some(sec.id),
        title,
        breadcrumbs: join(sec.breadcrumbs, " > "@),
        line_start: sec.line_start,
        line_end: sec.line_end,
        content,
    }
}

/// How far the cutting of a section has come: the chunks that are closed, and
/// the text and the number of words of the one that is open.
pub struct Cutting {
    pub closed: Seq<ChunkModel>,
    pub text: Seq<char>,
    pub words: nat,
}

/// Cuts a section between paragraphs. A chunk is closed before a paragraph that
/// would take it over `CHUNK_WORDS`; empty paragraphs count for nothing.
pub open spec fn cut(
    slug: Seq<char>,
    title: Seq<char>,
    i: int,
    sec: SectionModel,
    paragraphs: Seq<Seq<char>>,
) -> Cutting
    decreases paragraphs.len(),
{
    if paragraphs.len() == 0 {
        Cutting { closed: Seq::empty(), text: Seq::empty(), words: 0 }
    } else {
        let before = cut(slug, title, i, sec, paragraphs.drop_last());
        let para = trim(paragraphs.last());
        let n = words_of(para).len();
        if para.len() == 0 {
            before
        } else if before.text.len() == 0 {
            Cutting { closed: before.closed, text: para, words: before.words + n }
        } else if before.words + n > CHUNK_WORDS {
            Cutting {
                closed: before.closed.push(
                    chunk_of(slug, title, i, sec, before.closed.len(), trim(before.text)),
                ),
                text: para,
                words: n,
            }
        } else {
            Cutting {
                closed: before.closed,
                text: before.text + "\n\n"@ + para,
                words: before.words + n,
            }
        }
    }
}

/// The chunks of a section: none if it is blank, one if it is short, else its
/// paragraphs gathered up to a size.
pub open spec fn section_chunks(slug: Seq<char>, title: Seq<char>, i: int, sec: SectionModel) -> Seq<
    ChunkModel,
> {
    let content = trim(sec.content);
    if content.len() == 0 {
        Seq::empty()
    } else if words_of(content).len() <= WHOLE_SECTION_WORDS {
        seq![chunk_of(slug, title, i, sec, 0, content)]
    } else {
        let end = cut(slug, title, i, sec, split_str(content, "\n\n"@));
        if end.text.len() == 0 {
            end.closed
        } else {
            end.closed.push(chunk_of(slug, title, i, sec, end.closed.len(), trim(end.text)))
        }
    }
}

/// The chunks of the sections, in order.
pub open spec fn all_section_chunks(
    slug: Seq<char>,
    title: Seq<char>,
    sections: Seq<SectionModel>,
) -> Seq<ChunkModel>
    decreases sections.len(),
{
    if sections.len() == 0 {
        Seq::empty()
    } else {
        all_section_chunks(slug, title, sections.drop_last()) + section_chunks(
            slug,
            title,
            sections.len() - 1,
            sections.last(),
        )
    }
}

/// The chunks of a note: those of its sections, or one of the whole body where
/// no section gives any.
pub open spec fn chunks_of(
    slug: Seq<char>,
    title: Seq<char>,
    sections: Seq<SectionModel>,
    body: Seq<char>,
    offset: int,
) -> Seq<ChunkModel> {
    let chunks = all_section_chunks(slug, title, sections);
    if chunks.len() == 0 && trim(body).len() > 0 {
        seq![
            ChunkModel {
                chunk_id: slug + "::0::0"@,
                section_id: None,
                title,
                breadcrumbs: title,
                line_start: (offset + 1) as usize,
                line_end: (offset + lines_of(body).len()) as usize,
                content: trim(body),
            },
        ]
    } else {
        chunks
    }
}

fn make_chunk(
    slug: &str,
    title: &str,
    i: usize,
    sec: &AstSection,
    sub: usize,
    content: &str,
) -> (r: AstChunk)
    ensures
        r@ == chunk_of(slug@, title@, i as int, sec@, sub as nat, content@),
{
    let mut chunk_id = slug.to_owned();
    chunk_id.append("::");
    push_decimal(&mut chunk_id, i);
    chunk_id.append("::");
    push_decimal(&mut chunk_id, sub);
    AstChunk {
        chunk_id,
        section_id: Some(sec.id.clone()),
        title: title.to_owned(),
        breadcrumbs: str_join(&sec.breadcrumbs, " > "),
        line_start: sec.line_start,
        line_end: sec.line_end,
        content: content.to_owned(),
    }
}

fn cut_section(slug: &str, title: &str, i: usize, sec: &AstSection, content: &str) -> (r: Vec<
    AstChunk,
>)
    ensures
        ({
            let end = cut(slug@, title@, i as int, sec@, split_str(content@, "\n\n"@));
            views(r@) == if end.text.len() == 0 {
                end.closed
            } else {
                end.closed.push(
                    chunk_of(slug@, title@, i as int, sec@, end.closed.len(), trim(end.text)),
                )
            }
        }),
{
    broadcast use group_views;

    proof {
        reveal_strlit("\n\n");
    }
    let paragraphs = str_split_str(content, "\n\n");
    let ghost all = views(paragraphs@);
    let mut closed: Vec<AstChunk> = Vec::new();
    let mut text = String::new();
    let mut words: usize = 0;
    let mut k: usize = 0;
    while k < paragraphs.len()
        invariant
            k <= paragraphs@.len(),
            all == views(paragraphs@),
            ({
                let at = cut(slug@, title@, i as int, sec@, all.take(k as int));
                &&& views(closed@) == at.closed
                &&& text@ == at.text
                &&& words == if at.words <= usize::MAX {
                    at.words as int
                } else {
                    usize::MAX as int
                }
            }),
        decreases paragraphs.len() - k,
    {
        assert(all.take(k as int + 1).drop_last() =~= all.take(k as int));
        let para = str_trim(paragraphs[k].as_str());
        if !para.as_str().is_empty() {
            let n: usize = str_words(para.as_str()).len();
            let sum: usize = words.saturating_add(n);
            if text.as_str().is_empty() {
                text = para;
                words = sum;
            } else if sum > CHUNK_WORDS {
                let whole = str_trim(text.as_str());
                let sub: usize = closed.len();
                closed.push(make_chunk(slug, title, i, sec, sub, whole.as_str()));
                text = para;
                words = n;
            } else {
                text.append("\n\n");
                text.append(para.as_str());
                words = sum;
            }
        }
        k += 1;
    }
    assert(all.take(k as int) =~= all);
    if !text.as_str().is_empty() {
        let whole = str_trim(text.as_str());
        let sub: usize = closed.len();
        closed.push(make_chunk(slug, title, i, sec, sub, whole.as_str()));
    }
    closed
}

/// Cuts the sections of a note into chunks.
pub fn generate_chunks(
    slug: &str,
    title: &str,
    sections: &Vec<AstSection>,
    body: &str,
    offset: usize,
) -> (r: Vec<AstChunk>)
    requires
        offset + lines_of(body@).len() <= usize::MAX,
        offset < usize::MAX,
    ensures
        views(r@) == chunks_of(slug@, title@, views(sections@), body@, offset as int),
{
    broadcast use group_views;

    let mut out: Vec<AstChunk> = Vec::new();
    let ghost all = views(sections@);
    let mut i: usize = 0;
    while i < sections.len()
        invariant
            i <= sections@.len(),
            all == views(sections@),
            views(out@) == all_section_chunks(slug@, title@, all.take(i as int)),
        decreases sections.len() - i,
    {
        assert(all.take(i as int + 1).drop_last() =~= all.take(i as int));
        let ghost before = views(out@);
        let sec = &sections[i];
        let content = str_trim(sec.content.as_str());
        if content.as_str().is_empty() {
            assert(views(out@) =~= before + Seq::<ChunkModel>::empty());
        } else {
            let mut made: Vec<AstChunk> = if str_words(content.as_str()).len()
                <= WHOLE_SECTION_WORDS {
                let mut one: Vec<AstChunk> = Vec::new();
                one.push(make_chunk(slug, title, i, sec, 0, content.as_str()));
                assert(views(one@) =~= seq![
                    chunk_of(slug@, title@, i as int, sec@, 0, content@),
                ]);
                one
            } else {
                cut_section(slug, title, i, sec, content.as_str())
            };
            let ghost made0 = views(made@);
            let ghost out0 = out@;
            let ghost m0 = made@;
            out.append(&mut made);
            assert(out@ =~= out0 + m0);
            assert(views(out@) =~= before + made0);
        }
        i += 1;
    }
    assert(all.take(i as int) =~= all);
    if out.len() == 0 {
        let content = str_trim(body);
        if !content.as_str().is_empty() {
            let mut chunk_id = slug.to_owned();
            chunk_id.append("::0::0");
            let n: usize = str_lines(body).len();
            out.push(
                AstChunk {
                    chunk_id,
                    section_id: None,
                    title: title.to_owned(),
                    breadcrumbs: title.to_owned(),
                    line_start: offset + 1,
                    line_end: offset + n,
                    content,
                },
            );
            assert(views(out@) =~= chunks_of(slug@, title@, all, body@, offset as int));
        }
    }
    out
}

/// Every chunk of a section names the section, carries its breadcrumbs and
/// lies in its lines.
pub proof fn chunks_carry_section(slug: Seq<char>, title: Seq<char>, i: int, sec: SectionModel)
    ensures
        forall|k: int|
            0 <= k < section_chunks(slug, title, i, sec).len() ==> {
                let c = #[trigger] section_chunks(slug, title, i, sec)[k];
                &&& c.section_id == Some(sec.id)
                &&& c.breadcrumbs == join(sec.breadcrumbs, " > "@)
                &&& c.title == title
                &&& c.line_start == sec.line_start
                &&& c.line_end == sec.line_end
                &&& c.chunk_id == slug + "::"@ + decimal(i as nat) + "::"@ + decimal(k as nat)
            },
{
    lemma_cut_carries(slug, title, i, sec, split_str(trim(sec.content), "\n\n"@));
}

proof fn lemma_cut_carries(
    slug: Seq<char>,
    title: Seq<char>,
    i: int,
    sec: SectionModel,
    paragraphs: Seq<Seq<char>>,
)
    ensures
        forall|k: int|
            0 <= k < cut(slug, title, i, sec, paragraphs).closed.len() ==> {
                let c = #[trigger] cut(slug, title, i, sec, paragraphs).closed[k];
                c == chunk_of(slug, title, i, sec, k as nat, c.content)
            },
    decreases paragraphs.len(),
{
    if paragraphs.len() > 0 {
        lemma_cut_carries(slug, title, i, sec, paragraphs.drop_last());
    }
}

// ---------------------------------------------------------------------------
// What slugs look like
// ---------------------------------------------------------------------------

/// Letters and numbers with single hyphens between them.
pub open spec fn is_slug(s: Seq<char>) -> bool {
    &&& forall|i: int| 0 <= i < s.len() ==> is_alnum(#[trigger] s[i]) || s[i] == '-'
    &&& forall|i: int|
        0 <= i < s.len() && #[trigger] s[i] == '-' ==> 0 < i < s.len() - 1 && s[i - 1] != '-' && s[i
            + 1] != '-'
}

/// A stretch of letters and numbers.
spec fn is_word(s: Seq<char>) -> bool {
    s.len() > 0 && forall|i: int| 0 <= i < s.len() ==> is_alnum(#[trigger] s[i]) && s[i] != '-'
}

proof fn lemma_split_words(s: Seq<char>)
    requires
        forall|i: int| 0 <= i < s.len() ==> is_alnum(#[trigger] s[i]) || s[i] == '-',
    ensures
        forall|k: int, i: int|
            0 <= k < split_on(s, '-').len() && 0 <= i < split_on(s, '-')[k].len() ==> is_alnum(
                #[trigger] split_on(s, '-')[k][i],
            ) && split_on(s, '-')[k][i] != '-',
    decreases s.len(),
{
    let parts = split_on(s, '-');
    if s.len() > 0 {
        let rest = s.drop_last();
        assert forall|i: int| 0 <= i < rest.len() implies is_alnum(#[trigger] rest[i]) || rest[i]
            == '-' by {
            assert(rest[i] == s[i]);
        }
        lemma_split_words(rest);
        split_on_nonempty(rest, '-');
        let before = split_on(rest, '-');
        assert(s[s.len() - 1] == s.last());
        assert forall|k: int, i: int|
            0 <= k < parts.len() && 0 <= i < parts[k].len() implies is_alnum(
            #[trigger] parts[k][i],
        ) && parts[k][i] != '-' by {
            if s.last() == '-' {
                if k < before.len() {
                    assert(parts[k] == before[k]);
                    assert(is_alnum(before[k][i]));
                }
            } else if k < before.len() - 1 {
                assert(parts[k] == before[k]);
                assert(is_alnum(before[k][i]));
            } else if i < before.last().len() {
                assert(parts[k][i] == before[k][i]);
            }
        }
    }
}

proof fn lemma_nonempty_words(parts: Seq<Seq<char>>)
    requires
        forall|k: int, i: int|
            0 <= k < parts.len() && 0 <= i < parts[k].len() ==> is_alnum(#[trigger] parts[k][i])
                && parts[k][i] != '-',
    ensures
        forall|k: int| 0 <= k < nonempty(parts).len() ==> is_word(#[trigger] nonempty(parts)[k]),
    decreases parts.len(),
{
    if parts.len() > 0 {
        let rest = parts.drop_last();
        assert forall|k: int, i: int| 0 <= k < rest.len() && 0 <= i < rest[k].len() implies is_alnum(
            #[trigger] rest[k][i],
        ) && rest[k][i] != '-' by {
            assert(is_alnum(parts[k][i]));
        }
        lemma_nonempty_words(rest);
        let last = parts.last();
        assert forall|i: int| 0 <= i < last.len() implies is_alnum(#[trigger] last[i]) && last[i]
            != '-' by {
            assert(is_alnum(parts[parts.len() - 1][i]));
        }
        let r = nonempty(parts);
        let before = nonempty(rest);
        assert forall|k: int| 0 <= k < r.len() implies is_word(#[trigger] r[k]) by {
            if k < before.len() {
                assert(r[k] == before[k]);
            } else {
                assert(r[k] == last);
            }
        }
    }
}

proof fn lemma_joined_slug(words: Seq<Seq<char>>)
    requires
        forall|k: int| 0 <= k < words.len() ==> is_word(#[trigger] words[k]),
    ensures
        is_slug(join(words, "-"@)),
        words.len() > 0 ==> join(words, "-"@).len() > 0,
    decreases words.len(),
{
    reveal_strlit("-");
    let r = join(words, "-"@);
    if words.len() > 0 {
        assert(is_word(words[words.len() - 1]));
        let rest = words.drop_last();
        assert forall|k: int| 0 <= k < rest.len() implies is_word(#[trigger] rest[k]) by {
            assert(is_word(words[k]));
        }
        lemma_joined_slug(rest);
        if words.len() > 1 {
            let a = join(rest, "-"@);
            let b = words.last();
            let n = a.len() as int;
            assert(r =~= a + seq!['-'] + b);
            assert forall|i: int| 0 <= i < r.len() implies is_alnum(#[trigger] r[i]) || r[i]
                == '-' by {
                if i < n {
                    assert(r[i] == a[i]);
                } else if i > n {
                    assert(r[i] == b[i - n - 1]);
                }
            }
            assert forall|i: int| 0 <= i < r.len() && #[trigger] r[i] == '-' implies 0 < i < r.len()
                - 1 && r[i - 1] != '-' && r[i + 1] != '-' by {
                if i < n {
                    assert(a[i] == '-');
                    assert(r[i - 1] == a[i - 1] && r[i + 1] == a[i + 1]);
                } else if i == n {
                    assert(r[i - 1] == a[n - 1]);
                    assert(r[i + 1] == b[0]);
                    if a[n - 1] == '-' {
                        assert(n - 1 < n - 1);
                    }
                } else {
                    assert(r[i] == b[i - n - 1]);
                }
            }
        }
    }
}

/// A slug holds letters, numbers and single hyphens between them, nothing else.
pub proof fn slugs_are_clean(s: Seq<char>)
    ensures
        is_slug(slug_of(s)),
{
    let h = hyphenated(lowercase(s));
    lemma_split_words(h);
    lemma_nonempty_words(split_on(h, '-'));
    lemma_joined_slug(nonempty(split_on(h, '-')));
}

/// Whether every character is of a kind.
spec fn all_of(s: Seq<char>, kind: spec_fn(char) -> bool) -> bool {
    forall|i: int| 0 <= i < s.len() ==> kind(#[trigger] s[i])
}

/// Whether every character of every part is of a kind.
spec fn parts_of(parts: Seq<Seq<char>>, kind: spec_fn(char) -> bool) -> bool {
    forall|k: int| 0 <= k < parts.len() ==> all_of(#[trigger] parts[k], kind)
}

proof fn lemma_split_kind(s: Seq<char>, c: char, kind: spec_fn(char) -> bool)
    requires
        all_of(s, kind),
    ensures
        parts_of(split_on(s, c), kind),
    decreases s.len(),
{
    if s.len() > 0 {
        let rest = s.drop_last();
        assert forall|i: int| 0 <= i < rest.len() implies kind(#[trigger] rest[i]) by {
            assert(kind(s[i]));
        }
        lemma_split_kind(rest, c, kind);
        split_on_nonempty(rest, c);
        let before = split_on(rest, c);
        let parts = split_on(s, c);
        assert(kind(s[s.len() - 1]));
        assert forall|k: int| 0 <= k < parts.len() implies all_of(#[trigger] parts[k], kind) by {
            if k < before.len() - 1 || (k < before.len() && s.last() == c) {
                assert(parts[k] == before[k]);
            } else if s.last() != c {
                assert(all_of(before[before.len() - 1], kind));
                assert(parts[k] == before.last().push(s.last()));
            }
        }
    }
}

proof fn lemma_nonempty_kind(parts: Seq<Seq<char>>, kind: spec_fn(char) -> bool)
    requires
        parts_of(parts, kind),
    ensures
        parts_of(nonempty(parts), kind),
    decreases parts.len(),
{
    if parts.len() > 0 {
        let rest = parts.drop_last();
        assert forall|k: int| 0 <= k < rest.len() implies all_of(#[trigger] rest[k], kind) by {
            assert(all_of(parts[k], kind));
        }
        lemma_nonempty_kind(rest, kind);
        assert(all_of(parts[parts.len() - 1], kind));
    }
}

proof fn lemma_join_kind(parts: Seq<Seq<char>>, sep: Seq<char>, kind: spec_fn(char) -> bool)
    requires
        parts_of(parts, kind),
        all_of(sep, kind),
    ensures
        all_of(join(parts, sep), kind),
    decreases parts.len(),
{
    if parts.len() > 0 {
        let rest = parts.drop_last();
        assert forall|k: int| 0 <= k < rest.len() implies all_of(#[trigger] rest[k], kind) by {
            assert(all_of(parts[k], kind));
        }
        lemma_join_kind(rest, sep, kind);
        assert(all_of(parts[parts.len() - 1], kind));
        assert(all_of(parts[0], kind));
    }
}

/// What is behind the last separator is the last piece.
proof fn lemma_split_last(a: Seq<char>, b: Seq<char>)
    requires
        forall|i: int| 0 <= i < b.len() ==> #[trigger] b[i] != '-',
    ensures
        split_on(a + seq!['-'] + b, '-') == split_on(a, '-').push(b),
        split_on(b, '-') == seq![b],
    decreases b.len(),
{
    let all = a + seq!['-'] + b;
    if b.len() == 0 {
        assert(all.drop_last() =~= a);
        assert(b =~= Seq::empty());
    } else {
        let rest = b.drop_last();
        assert forall|i: int| 0 <= i < rest.len() implies #[trigger] rest[i] != '-' by {
            assert(b[i] != '-');
        }
        assert(b[b.len() - 1] != '-');
        lemma_split_last(a, rest);
        assert(all.drop_last() =~= a + seq!['-'] + rest);
        assert(rest.push(b.last()) =~= b);
        assert(split_on(a, '-').push(rest).drop_last() =~= split_on(a, '-'));
        assert(seq![rest].drop_last().push(b) =~= seq![b]);
    }
}

/// Words that were joined come apart again.
proof fn lemma_words_come_apart(words: Seq<Seq<char>>)
    requires
        forall|k: int| 0 <= k < words.len() ==> is_word(#[trigger] words[k]),
    ensures
        words.len() > 0 ==> split_on(join(words, "-"@), '-') == words,
        nonempty(words) == words,
    decreases words.len(),
{
    reveal_strlit("-");
    if words.len() > 0 {
        let rest = words.drop_last();
        let last = words.last();
        assert forall|k: int| 0 <= k < rest.len() implies is_word(#[trigger] rest[k]) by {
            assert(is_word(words[k]));
        }
        assert(is_word(words[words.len() - 1]));
        lemma_words_come_apart(rest);
        assert forall|i: int| 0 <= i < last.len() implies #[trigger] last[i] != '-' by {
            assert(is_alnum(last[i]) && last[i] != '-');
        }
        lemma_split_last(join(rest, "-"@), last);
        assert("-"@ =~= seq!['-']);
        assert(rest.push(last) =~= words);
        if words.len() == 1 {
            assert(words =~= seq![last]);
        }
    }
}

/// The slug of a slug is the slug, provided that lower case leaves the slug as it is; so
/// it does with the slug of an ASCII text.
pub proof fn slug_of_a_slug_is_the_slug(s: Seq<char>)
    requires
        all_ascii(s) || lowercase(slug_of(s)) == slug_of(s),
    ensures
        slug_of(slug_of(s)) == slug_of(s),
{
    reveal_strlit("-");
    let h = hyphenated(lowercase(s));
    let words = nonempty(split_on(h, '-'));
    let t = slug_of(s);
    if all_ascii(s) {
        let small = |c: char| is_ascii_char(c) && !('A' <= c <= 'Z');
        assert(all_of(h, small)) by {
            assert forall|i: int| 0 <= i < h.len() implies small(#[trigger] h[i]) by {
                assert(is_ascii_char(s[i]));
            }
        }
        lemma_split_kind(h, '-', small);
        lemma_nonempty_kind(split_on(h, '-'), small);
        lemma_join_kind(words, "-"@, small);
        assert(all_ascii(t)) by {
            assert forall|i: int| 0 <= i < t.len() implies is_ascii_char(#[trigger] t[i]) by {
                assert(small(t[i]));
            }
        }
        assert(lowercase(t) =~= t) by {
            assert forall|i: int| 0 <= i < t.len() implies ascii_lower(#[trigger] t[i]) == t[i] by {
                assert(small(t[i]));
            }
        }
    }
    slugs_are_clean(s);
    assert(hyphenated(t) =~= t);
    lemma_split_words(h);
    lemma_nonempty_words(split_on(h, '-'));
    lemma_words_come_apart(words);
    if words.len() == 0 {
        assert(t =~= Seq::empty());
        assert(nonempty(seq![Seq::<char>::empty()]) =~= Seq::empty()) by {
            reveal_with_fuel(nonempty, 2);
        }
    }
}

// ---------------------------------------------------------------------------
// What holds of headings, sections and chunks
// ---------------------------------------------------------------------------

/// Whether line `i` is a heading line: outside fenced blocks, and the heading pattern
/// gives a level and a title there.
pub open spec fn is_heading_line(
    lines: Seq<Seq<char>>,
    found: Seq<Seq<MatchModel>>,
    i: int,
) -> bool {
    &&& 0 <= i < lines.len()
    &&& !is_fenced(fence_open(lines.take(i)), lines[i])
    &&& found[i].len() > 0
    &&& group(found[i][0], 1) is Some
    &&& group(found[i][0], 2) is Some
}

/// Whether a heading is that of line `i`: its level is the number of hashes, its title
/// what follows them, trimmed, and its line is counted from the top of the file.
pub open spec fn is_heading_of(
    h: HeadingModel,
    found: Seq<Seq<MatchModel>>,
    offset: nat,
    i: int,
) -> bool {
    &&& h.level == (encode_utf8(group(found[i][0], 1)->0).len() as usize) as u8
    &&& h.title == trim(group(found[i][0], 2)->0)
    &&& h.line == (offset + i + 1) as usize
}

/// The headings of a note are those of its heading lines, each once and in order.
pub proof fn headings_are_the_heading_lines(
    lines: Seq<Seq<char>>,
    found: Seq<Seq<MatchModel>>,
    offset: nat,
) -> (at: Seq<int>)
    requires
        found.len() == lines.len(),
    ensures
        at.len() == headings_of(lines, found, offset).len(),
        forall|i: int, j: int| 0 <= i < j < at.len() ==> #[trigger] at[i] < #[trigger] at[j],
        forall|k: int|
            0 <= k < at.len() ==> is_heading_line(lines, found, #[trigger] at[k]) && is_heading_of(
                headings_of(lines, found, offset)[k],
                found,
                offset,
                at[k],
            ),
        forall|i: int| #[trigger] is_heading_line(lines, found, i) ==> at.contains(i),
    decreases lines.len(),
{
    if lines.len() == 0 {
        Seq::empty()
    } else {
        let (l0, f0) = (lines.drop_last(), found.drop_last());
        let n = l0.len() as int;
        let before = headings_are_the_heading_lines(l0, f0, offset);
        let hs = headings_of(lines, found, offset);
        let h0 = headings_of(l0, f0, offset);
        assert(lines.take(n) =~= l0);
        assert forall|i: int| 0 <= i < n implies is_heading_line(l0, f0, i) == #[trigger] is_heading_line(
            lines,
            found,
            i,
        ) by {
            assert(l0.take(i) =~= lines.take(i));
        }
        let at = if is_heading_line(lines, found, n) {
            before.push(n)
        } else {
            before
        };
        assert forall|k: int| 0 <= k < at.len() implies is_heading_line(lines, found, #[trigger] at[k])
            && is_heading_of(hs[k], found, offset, at[k]) by {
            if k < before.len() {
                assert(at[k] == before[k]);
                assert(hs[k] == h0[k]);
                assert(is_heading_line(l0, f0, before[k]));
            }
        }
        assert forall|i: int| #[trigger] is_heading_line(lines, found, i) implies at.contains(i) by {
            if i < n {
                assert(is_heading_line(l0, f0, i));
                let k = choose|k: int| 0 <= k < before.len() && before[k] == i;
                assert(at[k] == i);
            } else {
                assert(at[before.len() as int] == n);
            }
        }
        assert forall|i: int, j: int| 0 <= i < j < at.len() implies #[trigger] at[i]
            < #[trigger] at[j] by {
            assert(at[i] == before[i]);
            assert(is_heading_line(l0, f0, before[i]));
            if j < before.len() {
                assert(at[j] == before[j]);
            }
        }
        at
    }
}

/// A section begins at its heading and ends before the next one, or at the end of the
/// note. It stands under the nearest heading before it of a lower level, and under none
/// where there is no such heading.
pub proof fn sections_follow_their_headings(
    slug: Seq<char>,
    title: Seq<char>,
    hs: Seq<HeadingModel>,
    lines: Seq<Seq<char>>,
    body: Seq<char>,
    offset: int,
    i: int,
)
    requires
        0 <= i < hs.len(),
        0 <= offset,
        offset + lines.len() < usize::MAX,
    ensures
        sections_of(slug, title, hs, lines, body, offset).len() == hs.len(),
        ({
            let s = sections_of(slug, title, hs, lines, body, offset)[i];
            &&& s.heading == hs[i].title
            &&& s.level == hs[i].level
            &&& s.line_start == hs[i].line
            &&& i + 1 < hs.len() && hs[i + 1].line >= 1 ==> s.line_end == hs[i + 1].line - 1
            &&& i + 1 == hs.len() && lines.len() > 0 ==> s.line_end == offset + lines.len()
            &&& s.id == slug + "::"@ + decimal(i as nat) + "#"@ + slug_of(hs[i].title)
            &&& forall|p: int|
                0 <= p < i && (#[trigger] hs[p]).level < hs[i].level && (forall|k: int|
                    p < k < i ==> (#[trigger] hs[k]).level >= hs[i].level) ==> s.parent_id == Some(
                    sections_of(slug, title, hs, lines, body, offset)[p].id,
                ) && s.breadcrumbs == sections_of(
                    slug,
                    title,
                    hs,
                    lines,
                    body,
                    offset,
                )[p].breadcrumbs.push(hs[i].title)
            &&& (forall|k: int| 0 <= k < i ==> (#[trigger] hs[k]).level >= hs[i].level)
                ==> s.parent_id is None && s.breadcrumbs == seq![hs[i].title]
        }),
{
    let s = sections_of(slug, title, hs, lines, body, offset)[i];
    lemma_enclosing(hs, hs[i].level, i);
    breadcrumbs_extend_parent(slug, hs, lines, offset, i);
    let q = parent_of(hs, i);
    assert forall|p: int|
        0 <= p < i && (#[trigger] hs[p]).level < hs[i].level && (forall|k: int|
            p < k < i ==> (#[trigger] hs[k]).level >= hs[i].level) implies s.parent_id == Some(
        sections_of(slug, title, hs, lines, body, offset)[p].id,
    ) && s.breadcrumbs == sections_of(slug, title, hs, lines, body, offset)[p].breadcrumbs.push(
        hs[i].title,
    ) by {
        if q < p {
            assert(hs[p].level >= hs[i].level);
        }
        if p < q {
            assert(hs[q].level >= hs[i].level);
        }
    }
}

/// The text of a section is its lines, from that of its heading to its last, and that of
/// a note without headings is the whole text, trimmed.
pub proof fn sections_hold_their_lines(
    slug: Seq<char>,
    title: Seq<char>,
    hs: Seq<HeadingModel>,
    lines: Seq<Seq<char>>,
    body: Seq<char>,
    offset: int,
    i: int,
)
    requires
        0 <= offset,
        offset + lines.len() < usize::MAX,
    ensures
        hs.len() == 0 ==> sections_of(slug, title, hs, lines, body, offset).len() == 1
            && sections_of(slug, title, hs, lines, body, offset)[0].content == trim(body)
            && sections_of(slug, title, hs, lines, body, offset)[0].heading == title,
        0 <= i < hs.len() && offset < hs[i].line <= offset + lines.len() && (i + 1 < hs.len()
            ==> hs[i].line < hs[i + 1].line <= offset + lines.len()) ==> ({
            let s = sections_of(slug, title, hs, lines, body, offset)[i];
            s.content == join(
                lines.subrange(s.line_start - offset - 1, s.line_end - offset),
                "\n"@,
            )
        }),
{
}

/// The words of the chunks, one chunk after the other.
pub open spec fn words_in(cs: Seq<ChunkModel>) -> Seq<Seq<char>>
    decreases cs.len(),
{
    if cs.len() == 0 {
        Seq::empty()
    } else {
        words_in(cs.drop_last()) + words_of(cs.last().content)
    }
}

spec fn words_in_all(ps: Seq<Seq<char>>) -> Seq<Seq<char>>
    decreases ps.len(),
{
    if ps.len() == 0 {
        Seq::empty()
    } else {
        words_in_all(ps.drop_last()) + words_of(ps.last())
    }
}

proof fn lemma_white_before(w: Seq<char>, x: Seq<char>)
    requires
        forall|i: int| 0 <= i < w.len() ==> is_white(#[trigger] w[i]),
    ensures
        words_of(w + x) == words_of(x),
    decreases w.len(),
{
    if w.len() == 0 {
        assert(w + x =~= x);
    } else {
        let rest = w.drop_first();
        assert forall|i: int| 0 <= i < rest.len() implies is_white(#[trigger] rest[i]) by {
            assert(rest[i] == w[i + 1]);
        }
        lemma_white_before(rest, x);
        white_space_parts_words(Seq::empty(), w[0], rest + x);
        assert(Seq::<char>::empty() + seq![w[0]] + (rest + x) =~= w + x);
        assert(words_of(Seq::<char>::empty()) + words_of(rest + x) =~= words_of(x));
    }
}

proof fn lemma_white_behind(x: Seq<char>, w: Seq<char>)
    requires
        forall|i: int| 0 <= i < w.len() ==> is_white(#[trigger] w[i]),
    ensures
        words_of(x + w) == words_of(x),
{
    if w.len() == 0 {
        assert(x + w =~= x);
    } else {
        let rest = w.drop_first();
        assert forall|i: int| 0 <= i < rest.len() implies is_white(#[trigger] rest[i]) by {
            assert(rest[i] == w[i + 1]);
        }
        white_space_parts_words(x, w[0], rest);
        lemma_white_before(rest, Seq::empty());
        assert(rest + Seq::<char>::empty() =~= rest);
        white_space_parts_words(Seq::empty(), w[0], Seq::empty());
        assert(x + seq![w[0]] + rest =~= x + w);
        assert(words_of(x) + words_of(rest) =~= words_of(x));
    }
}

proof fn lemma_trim_keeps_words(s: Seq<char>)
    ensures
        words_of(trim(s)) == words_of(s),
{
    let (a, b) = trimming_takes_white_space_off(s);
    let head = s.take(a);
    let tail = s.skip(b);
    assert forall|i: int| 0 <= i < tail.len() implies is_white(#[trigger] tail[i]) by {
        assert(tail[i] == s[b + i]);
    }
    lemma_white_behind(head + trim(s), tail);
    lemma_white_before(head, trim(s));
    assert(head + trim(s) + tail =~= s);
}

proof fn lemma_gap_parts_words(a: Seq<char>, b: Seq<char>)
    ensures
        words_of(a + "\n\n"@ + b) == words_of(a) + words_of(b),
{
    reveal_strlit("\n\n");
    white_space_parts_words(a, '\n', seq!['\n'] + b);
    lemma_white_before(seq!['\n'], b);
    assert(a + seq!['\n'] + (seq!['\n'] + b) =~= a + "\n\n"@ + b);
}

proof fn lemma_joined_words(ps: Seq<Seq<char>>)
    ensures
        words_of(join(ps, "\n\n"@)) == words_in_all(ps),
    decreases ps.len(),
{
    if ps.len() == 0 {
        assert(words_of(join(ps, "\n\n"@)) =~= words_in_all(ps));
    } else if ps.len() == 1 {
        assert(words_in_all(ps.drop_last()).len() == 0);
        assert(words_in_all(ps) =~= words_of(ps[0]));
    } else {
        lemma_joined_words(ps.drop_last());
        lemma_gap_parts_words(join(ps.drop_last(), "\n\n"@), ps.last());
    }
}

/// Whether a text is one of these paragraphs, trimmed.
pub open spec fn is_paragraph(ps: Seq<Seq<char>>, text: Seq<char>) -> bool {
    exists|k: int| 0 <= k < ps.len() && text == trim(#[trigger] ps[k])
}

proof fn lemma_cut_words(
    slug: Seq<char>,
    title: Seq<char>,
    i: int,
    sec: SectionModel,
    ps: Seq<Seq<char>>,
)
    ensures
        ({
            let r = cut(slug, title, i, sec, ps);
            &&& words_in(r.closed) + words_of(r.text) == words_in_all(ps)
            &&& r.words == words_of(r.text).len()
            &&& r.words <= 300 || is_paragraph(ps, r.text)
            &&& r.closed.len() > 0 ==> words_of(r.closed.last().content).len() + r.words > 300
            &&& forall|k: int|
                0 <= k < r.closed.len() ==> words_of((#[trigger] r.closed[k]).content).len() <= 300
                    || is_paragraph(ps, r.closed[k].content)
            &&& forall|j: int, k: int|
                0 <= j && k == j + 1 && k < r.closed.len() ==> words_of(
                    (#[trigger] r.closed[j]).content,
                ).len() + words_of((#[trigger] r.closed[k]).content).len() > 300
        }),
    decreases ps.len(),
{
    let r = cut(slug, title, i, sec, ps);
    if ps.len() == 0 {
        white_space_parts_words(Seq::empty(), ' ', Seq::empty());
        assert(words_in(r.closed) + words_of(r.text) =~= words_in_all(ps));
    } else {
        let rest = ps.drop_last();
        let before = cut(slug, title, i, sec, rest);
        let para = trim(ps.last());
        lemma_cut_words(slug, title, i, sec, rest);
        lemma_trim_keeps_words(ps.last());
        white_space_parts_words(Seq::empty(), ' ', Seq::empty());
        assert forall|t: Seq<char>| #[trigger] is_paragraph(rest, t) implies is_paragraph(ps, t) by {
            let k = choose|k: int| 0 <= k < rest.len() && t == trim(#[trigger] rest[k]);
            assert(ps[k] == rest[k]);
        }
        assert(is_paragraph(ps, para)) by {
            assert(ps[ps.len() - 1] == ps.last());
        }
        if para.len() == 0 {
            assert(para =~= Seq::<char>::empty());
            assert(words_in_all(ps) =~= words_in_all(rest));
        } else if before.text.len() == 0 {
            assert(before.text =~= Seq::<char>::empty());
            assert(words_in(r.closed) + words_of(r.text) =~= words_in_all(ps));
        } else if before.words + words_of(para).len() > 300 {
            let c = chunk_of(slug, title, i, sec, before.closed.len(), trim(before.text));
            lemma_trim_keeps_words(before.text);
            assert(r.closed.drop_last() =~= before.closed);
            assert(words_in(r.closed) == words_in(before.closed) + words_of(before.text));
            assert forall|k: int| 0 <= k < r.closed.len() implies words_of(
                (#[trigger] r.closed[k]).content,
            ).len() <= 300 || is_paragraph(ps, r.closed[k].content) by {
                if k < before.closed.len() {
                    assert(r.closed[k] == before.closed[k]);
                } else if before.words > 300 {
                    let q = choose|q: int|
                        0 <= q < rest.len() && before.text == trim(#[trigger] rest[q]);
                    lemma_trim_twice(rest[q]);
                }
            }
            assert forall|j: int, k: int|
                0 <= j && k == j + 1 && k < r.closed.len() implies words_of(
                (#[trigger] r.closed[j]).content,
            ).len() + words_of((#[trigger] r.closed[k]).content).len() > 300 by {
                assert(r.closed[j] == before.closed[j]);
                if k < before.closed.len() {
                    assert(r.closed[k] == before.closed[k]);
                } else {
                    assert(before.closed.last() == before.closed[j]);
                }
            }
        } else {
            lemma_gap_parts_words(before.text, para);
            assert(words_in(r.closed) + words_of(r.text) =~= words_in_all(ps));
        }
    }
}

proof fn lemma_trim_twice(s: Seq<char>)
    ensures
        trim(trim(s)) == trim(s),
{
    let (a, b) = trimming_takes_white_space_off(s);
    let t = trim(s);
    let (c, d) = trimming_takes_white_space_off(t);
    if t.len() > 0 {
        assert(t[0] == s[a]);
        assert(t[t.len() - 1] == s[b - 1]);
        assert(c == 0 && d == t.len()) by {
            if c > 0 {
                assert(is_white(t[0]));
            }
            if d < t.len() {
                assert(is_white(t[t.len() - 1]));
            }
        }
        assert(t.subrange(0, t.len() as int) =~= t);
    } else {
        assert(trim(t) =~= t);
    }
}

/// The chunks of a section hold all its words, each once and in order. A blank section
/// has none, one of at most 400 words has one. A chunk of a longer one has at most 300
/// words, unless it is a single paragraph, and has as many paragraphs as fit: it has
/// more than 300 words together with the chunk behind it.
pub proof fn chunks_hold_every_word(slug: Seq<char>, title: Seq<char>, i: int, sec: SectionModel)
    ensures
        words_in(section_chunks(slug, title, i, sec)) == words_of(sec.content),
        trim(sec.content).len() == 0 ==> section_chunks(slug, title, i, sec).len() == 0,
        trim(sec.content).len() > 0 && words_of(sec.content).len() <= 400 ==> section_chunks(
            slug,
            title,
            i,
            sec,
        ).len() == 1 && section_chunks(slug, title, i, sec)[0].content == trim(sec.content),
        words_of(sec.content).len() > 400 ==> {
            let cs = section_chunks(slug, title, i, sec);
            &&& forall|k: int|
                0 <= k < cs.len() ==> words_of((#[trigger] cs[k]).content).len() <= 300
                    || is_paragraph(split_str(trim(sec.content), "\n\n"@), cs[k].content)
            &&& forall|j: int, k: int|
                0 <= j && k == j + 1 && k < cs.len() ==> words_of((#[trigger] cs[j]).content).len()
                    + words_of((#[trigger] cs[k]).content).len() > 300
        },
{
    let content = trim(sec.content);
    let cs = section_chunks(slug, title, i, sec);
    lemma_trim_keeps_words(sec.content);
    white_space_parts_words(Seq::empty(), ' ', Seq::empty());
    if content.len() == 0 {
        assert(content =~= Seq::<char>::empty());
        assert(words_in(cs) =~= words_of(sec.content));
    } else if words_of(content).len() <= 400 {
        assert(words_in(cs.drop_last()).len() == 0);
        assert(words_in(cs) =~= words_of(content));
    } else {
        reveal_strlit("\n\n");
        let ps = split_str(content, "\n\n"@);
        let end = cut(slug, title, i, sec, ps);
        lemma_cut_words(slug, title, i, sec, ps);
        cut_pieces_join_again(content, "\n\n"@);
        lemma_joined_words(ps);
        lemma_trim_keeps_words(end.text);
        if end.text.len() == 0 {
            assert(end.text =~= Seq::<char>::empty());
            assert(words_in(cs) =~= words_of(content));
        } else {
            assert(cs.drop_last() =~= end.closed);
            assert(words_in(cs) == words_in(end.closed) + words_of(end.text));
            assert forall|k: int| 0 <= k < cs.len() implies words_of(
                (#[trigger] cs[k]).content,
            ).len() <= 300 || is_paragraph(ps, cs[k].content) by {
                if k < end.closed.len() {
                    assert(cs[k] == end.closed[k]);
                } else if end.words > 300 {
                    let q = choose|q: int| 0 <= q < ps.len() && end.text == trim(#[trigger] ps[q]);
                    lemma_trim_twice(ps[q]);
                }
            }
            assert forall|j: int, k: int| 0 <= j && k == j + 1 && k < cs.len() implies words_of(
                (#[trigger] cs[j]).content,
            ).len() + words_of((#[trigger] cs[k]).content).len() > 300 by {
                assert(cs[j] == end.closed[j]);
                if k < end.closed.len() {
                    assert(cs[k] == end.closed[k]);
                } else {
                    assert(end.closed.last() == end.closed[j]);
                }
            }
        }
    }
}

proof fn lemma_split_parts(a: Seq<char>, b: Seq<char>)
    ensures
        split_on(a + seq!['-'] + b, '-') == split_on(a, '-') + split_on(b, '-'),
    decreases b.len(),
{
    let s = a + seq!['-'];
    if b.len() == 0 {
        assert(s + b =~= s);
        assert(s.drop_last() =~= a);
        assert(split_on(s, '-') =~= split_on(a, '-') + split_on(b, '-'));
    } else {
        lemma_split_parts(a, b.drop_last());
        split_on_nonempty(b.drop_last(), '-');
        assert((s + b).drop_last() =~= s + b.drop_last());
        assert((s + b).last() == b.last());
        let before = split_on(b.drop_last(), '-');
        let first = split_on(a, '-');
        assert((first + before).last() == before.last());
        assert((first + before).drop_last() =~= first + before.drop_last());
        assert(split_on(s + b, '-') =~= first + split_on(b, '-'));
    }
}

proof fn lemma_nonempty_parts(a: Seq<Seq<char>>, b: Seq<Seq<char>>)
    ensures
        nonempty(a + b) == nonempty(a) + nonempty(b),
    decreases b.len(),
{
    if b.len() == 0 {
        assert(a + b =~= a);
        assert(nonempty(a) + nonempty(b) =~= nonempty(a));
    } else {
        lemma_nonempty_parts(a, b.drop_last());
        assert((a + b).drop_last() =~= a + b.drop_last());
        assert(nonempty(a + b) =~= nonempty(a) + nonempty(b));
    }
}

proof fn lemma_no_hyphen(s: Seq<char>)
    requires
        !s.contains('-'),
    ensures
        split_on(s, '-') == seq![s],
    decreases s.len(),
{
    if s.len() > 0 {
        assert(!s.drop_last().contains('-')) by {
            if s.drop_last().contains('-') {
                let k = choose|k: int| 0 <= k < s.drop_last().len() && s.drop_last()[k] == '-';
                assert(s[k] == '-');
            }
        }
        lemma_no_hyphen(s.drop_last());
        assert(s[s.len() - 1] != '-');
        assert(s.drop_last().push(s.last()) =~= s);
    } else {
        assert(s =~= Seq::<char>::empty());
    }
    assert(split_on(s, '-') =~= seq![s]);
}

/// The slug of a word is the word in lower case. Any character but a letter or a number
/// parts the words of a slug: what stands before it and what stands behind it have
/// their own slugs, with a hyphen between them where neither is empty.
pub proof fn slug_joins_the_words(a: Seq<char>, c: char, b: Seq<char>)
    requires
        all_ascii(a + seq![c] + b),
        !is_alnum(c),
    ensures
        slug_of(a + seq![c] + b) == (if slug_of(a).len() == 0 {
            slug_of(b)
        } else if slug_of(b).len() == 0 {
            slug_of(a)
        } else {
            slug_of(a) + seq!['-'] + slug_of(b)
        }),
        (forall|i: int| 0 <= i < a.len() ==> is_alnum(#[trigger] a[i])) ==> slug_of(a) == lowercase(
            a,
        ),
{
    let s = a + seq![c] + b;
    assert(all_ascii(a)) by {
        assert forall|i: int| 0 <= i < a.len() implies is_ascii_char(#[trigger] a[i]) by {
            assert(s[i] == a[i]);
        }
    }
    assert(all_ascii(b)) by {
        assert forall|i: int| 0 <= i < b.len() implies is_ascii_char(#[trigger] b[i]) by {
            assert(s[a.len() + 1 + i] == b[i]);
        }
    }
    assert(is_ascii_char(c)) by {
        assert(s[a.len() as int] == c);
    }
    let (x, y) = (hyphenated(lowercase(a)), hyphenated(lowercase(b)));
    assert(hyphenated(lowercase(s)) =~= x + seq!['-'] + y);
    lemma_split_parts(x, y);
    lemma_nonempty_parts(split_on(x, '-'), split_on(y, '-'));
    let (p, q) = (nonempty(split_on(x, '-')), nonempty(split_on(y, '-')));
    reveal_strlit("-");
    assert("-"@ =~= seq!['-']);
    joined_parts_join(p, q, "-"@);
    lemma_join_empty(p, "-"@);
    lemma_join_empty(q, "-"@);
    lemma_all_nonempty(split_on(x, '-'));
    lemma_all_nonempty(split_on(y, '-'));
    if q.len() == 0 {
        assert(p + q =~= p);
    }
    if forall|i: int| 0 <= i < a.len() ==> is_alnum(#[trigger] a[i]) {
        assert forall|i: int| 0 <= i < a.len() implies #[trigger] x[i] == lowercase(a)[i] && x[i]
            != '-' by {
            assert(is_alnum(a[i]));
        }
        assert(x =~= lowercase(a));
        assert(!x.contains('-'));
        lemma_no_hyphen(x);
        assert(nonempty(seq![x].drop_last()).len() == 0);
        assert(nonempty(seq![x]) =~= if x.len() == 0 {
            Seq::empty()
        } else {
            seq![x]
        });
        assert(slug_of(a) =~= x);
    }
}

proof fn lemma_all_nonempty(parts: Seq<Seq<char>>)
    ensures
        forall|i: int| 0 <= i < nonempty(parts).len() ==> (#[trigger] nonempty(parts)[i]).len() > 0,
    decreases parts.len(),
{
    if parts.len() > 0 {
        lemma_all_nonempty(parts.drop_last());
        let before = nonempty(parts.drop_last());
        let r = nonempty(parts);
        assert forall|i: int| 0 <= i < r.len() implies (#[trigger] r[i]).len() > 0 by {
            if i < before.len() {
                assert(r[i] == before[i]);
            }
        }
    }
}

proof fn lemma_join_empty(parts: Seq<Seq<char>>, sep: Seq<char>)
    ensures
        parts.len() > 0 && parts.last().len() > 0 ==> join(parts, sep).len() > 0,
        parts.len() == 0 ==> join(parts, sep).len() == 0,
{
}

} // verus!
