//! What the editor is offered: completions, and what a link under the cursor
//! leads to.

use crate::matching::{
    compile, group, matches_in, pattern_matches, pattern_of, Match, MatchModel, WIKILINK,
};
use crate::sections::group_text;
use crate::text::{
    char_is_alphanumeric, chars_of, contains_str, decimal, find_chars, find_from, group_views, is_alnum, join,
    lemma_find_from, lines_of, occurs_at, opt_view, push_decimal, same, stands_at, str_ends_with,
    str_join, str_lines, str_starts_with, str_trim, str_trim_start_char, string_range, trim,
    trim_start_char, views,
};
use crate::typo::{eq_ignore_ascii_case, same_ignoring_case};
use vstd::prelude::*;
use vstd::utf8::*;

verus! {

// ---------------------------------------------------------------------------
// Completion
// ---------------------------------------------------------------------------

/// A note as the editor knows it.
#[derive(Debug)]
pub struct CachedNote {
    pub doc_id: String,
    pub title: String,
    pub path: String,
    pub aliases: Vec<String>,
    pub tags: Vec<String>,
    pub word_count: usize,
}

/// What a `CachedNote` says.
pub struct CachedModel {
    pub doc_id: Seq<char>,
    pub title: Seq<char>,
    pub path: Seq<char>,
    pub aliases: Seq<Seq<char>>,
    pub tags: Seq<Seq<char>>,
    pub word_count: usize,
}

impl View for CachedNote {
    type V = CachedModel;

    open spec fn view(&self) -> CachedModel {
        CachedModel {
            doc_id: self.doc_id@,
            title: self.title@,
            path: self.path@,
            aliases: views(self.aliases@),
            tags: views(self.tags@),
            word_count: self.word_count,
        }
    }
}

/// The kind of an item that refers to something.
pub const KIND_REFERENCE: u32 = 18;

/// The kind of an item that is a keyword.
pub const KIND_KEYWORD: u32 = 14;

/// An item that the editor is offered.
#[derive(Debug)]
pub struct CompletionItem {
    pub label: String,
    pub kind: u32,
    pub detail: String,
    pub insert_text: String,
    pub filter_text: Option<String>,
    pub documentation: Option<String>,
}

/// What a `CompletionItem` says.
pub struct ItemModel {
    pub label: Seq<char>,
    pub kind: u32,
    pub detail: Seq<char>,
    pub insert_text: Seq<char>,
    pub filter_text: Option<Seq<char>>,
    pub documentation: Option<Seq<char>>,
}

impl View for CompletionItem {
    type V = ItemModel;

    open spec fn view(&self) -> ItemModel {
        ItemModel {
            label: self.label@,
            kind: self.kind,
            detail: self.detail@,
            insert_text: self.insert_text@,
            filter_text: opt_view(self.filter_text),
            documentation: opt_view(self.documentation),
        }
    }
}

/// The last position before or at `i` at which `p` stands in `s`.
pub open spec fn find_back(s: Seq<char>, p: Seq<char>, i: int) -> Option<int>
    decreases i + 1,
{
    if i < 0 {
        None
    } else if occurs_at(s, p, i) {
        Some(i)
    } else {
        find_back(s, p, i - 1)
    }
}

/// The last position at which `p` stands in `s`.
pub open spec fn last_of(s: Seq<char>, p: Seq<char>) -> Option<int> {
    find_back(s, p, s.len() as int)
}

fn find_last(s: &Vec<char>, p: &Vec<char>) -> (r: Option<usize>)
    ensures
        match r {
            Some(k) => last_of(s@, p@) == Some(k as int) && k + p@.len() <= s@.len(),
            None => last_of(s@, p@) is None,
        },
{
    let mut i: usize = s.len();
    loop
        invariant
            i <= s@.len(),
            find_back(s@, p@, i as int) == last_of(s@, p@),
        decreases i,
    {
        if stands_at(s, p, i) {
            return Some(i);
        }
        if i == 0 {
            assert(find_back(s@, p@, -1) is None);
            return None;
        }
        i -= 1;
    }
}

/// What completion offers.
#[derive(Debug, Clone, Copy, PartialEq, Eq, Structural)]
pub enum CompletionMode {
    /// Notes and their aliases, within a link.
    Links,
    /// Tags.
    Tags,
    /// The titles of all notes.
    Titles,
}

/// A character that may follow the hash of a tag that is being typed.
pub open spec fn is_tag_char(c: char) -> bool {
    is_alnum(c) || c == '/' || c == '_' || c == '-' || c == '#'
}

/// Whether a link is open at the end of the text: the last opening brackets stand
/// behind the last closing ones.
pub open spec fn link_is_open(before: Seq<char>) -> bool {
    "[["@.is_suffix_of(before) || match last_of(before, "[["@) {
        Some(p) => p > match last_of(before, "]]"@) {
            Some(q) => q,
            None => -1,
        },
        None => false,
    }
}

/// Whether a tag is being typed at the end of the text.
pub open spec fn tag_is_open(before: Seq<char>) -> bool {
    match last_of(before, seq!['#']) {
        Some(p) => forall|i: int| p <= i < before.len() ==> is_tag_char(#[trigger] before[i]),
        None => false,
    }
}

/// What completion offers, by the character that asked for it and the text
/// before the cursor.
pub open spec fn mode_of(trigger: Option<Seq<char>>, before: Seq<char>) -> CompletionMode {
    if trigger == Some("["@) || link_is_open(before) {
        CompletionMode::Links
    } else if trigger == Some("#"@) || tag_is_open(before) {
        CompletionMode::Tags
    } else {
        CompletionMode::Titles
    }
}

/// What completion offers.
pub fn completion_mode(trigger: Option<&str>, before: &str) -> (r: CompletionMode)
    ensures
        r == mode_of(
            match trigger {
                Some(t) => Some(t@),
                None => None,
            },
            before@,
        ),
{
    let b = chars_of(before);
    let open = chars_of("[[");
    let close = chars_of("]]");
    let asked_link = match trigger {
        Some(t) => same(t, "["),
        None => false,
    };
    let inside = match find_last(&b, &open) {
        Some(p) => {
            match find_last(&b, &close) {
                Some(q) => p > q,
                None => true,
            }
        },
        None => false,
    };
    if asked_link || str_ends_with(before, "[[") || inside {
        return CompletionMode::Links;
    }
    let asked_tag = match trigger {
        Some(t) => same(t, "#"),
        None => false,
    };
    if asked_tag {
        return CompletionMode::Tags;
    }
    let hash: Vec<char> = vec!['#'];
    assert(hash@ =~= seq!['#']);
    match find_last(&b, &hash) {
        None => CompletionMode::Titles,
        Some(p) => {
            let mut i: usize = p;
            while i < b.len()
                invariant
                    p <= i <= b@.len(),
                    b@ == before@,
                    last_of(before@, seq!['#']) == Some(p as int),
                    !link_is_open(before@),
                    trigger is None || (trigger.unwrap()@ != "["@ && trigger.unwrap()@ != "#"@),
                    forall|j: int| p <= j < i ==> is_tag_char(#[trigger] before@[j]),
                decreases b.len() - i,
            {
                let c = b[i];
                if !(char_is_alphanumeric(c) || c == '/' || c == '_' || c == '-' || c == '#') {
                    assert(!is_tag_char(before@[i as int]));
                    return CompletionMode::Titles;
                }
                i += 1;
            }
            CompletionMode::Tags
        },
    }
}

/// The item of a note.
pub open spec fn note_item(n: CachedModel) -> ItemModel {
    ItemModel {
        label: n.title,
        kind: KIND_REFERENCE,
        detail: n.path,
        insert_text: n.title,
        filter_text: None,
        documentation: Some(
            "**"@ + n.title + "** ("@ + decimal(n.word_count as nat) + " words)\n\nTags: "@ + join(
                n.tags,
                ", "@,
            ),
        ),
    }
}

/// The item of an alias: it links to the note and shows the alias.
pub open spec fn alias_item(n: CachedModel, alias: Seq<char>) -> ItemModel {
    ItemModel {
        label: alias,
        kind: KIND_REFERENCE,
        detail: "alias of [["@ + n.title + "]]"@,
        insert_text: n.title + "|"@ + alias,
        filter_text: Some(alias),
        documentation: Some("Alias for note **[["@ + n.title + "]]** (`"@ + n.path + "`)"@),
    }
}

/// The item of a tag.
pub open spec fn tag_item(tag: Seq<char>) -> ItemModel {
    let clean = trim_start_char(tag, '#');
    ItemModel {
        label: "#"@ + clean,
        kind: KIND_KEYWORD,
        detail: "tag"@,
        insert_text: clean,
        filter_text: Some(clean),
        documentation: Some("Vault tag `#"@ + clean + "`"@),
    }
}

/// The item of a note outside a link.
pub open spec fn title_item(n: CachedModel) -> ItemModel {
    ItemModel {
        label: n.title,
        kind: KIND_REFERENCE,
        detail: n.path,
        insert_text: n.title,
        filter_text: None,
        documentation: None,
    }
}

/// The items of these notes and their aliases: each note before its aliases.
pub open spec fn link_items(notes: Seq<CachedModel>) -> Seq<ItemModel>
    decreases notes.len(),
{
    if notes.len() == 0 {
        Seq::empty()
    } else {
        link_items(notes.drop_last()).push(note_item(notes.last()))
            + notes.last().aliases.map_values(|a: Seq<char>| alias_item(notes.last(), a))
    }
}

/// The items that are offered.
pub open spec fn items_of(mode: CompletionMode, notes: Seq<CachedModel>, tags: Seq<Seq<char>>) -> Seq<
    ItemModel,
> {
    match mode {
        CompletionMode::Links => link_items(notes),
        CompletionMode::Tags => tags.map_values(|t: Seq<char>| tag_item(t)),
        CompletionMode::Titles => notes.map_values(|n: CachedModel| title_item(n)),
    }
}

fn joined3(a: &str, b: &str, c: &str) -> (r: String)
    ensures
        r@ == a@ + b@ + c@,
{
    let mut s = a.to_owned();
    s.append(b);
    s.append(c);
    s
}

fn make_note_item(n: &CachedNote) -> (r: CompletionItem)
    ensures
        r@ == note_item(n@),
{
    let mut doc = joined3("**", n.title.as_str(), "** (");
    push_decimal(&mut doc, n.word_count);
    doc.append(" words)\n\nTags: ");
    let tags = str_join(&n.tags, ", ");
    doc.append(tags.as_str());
    CompletionItem {
        label: n.title.clone(),
        kind: KIND_REFERENCE,
        detail: n.path.clone(),
        insert_text: n.title.clone(),
        filter_text: None,
        documentation: Some(doc),
    }
}

fn make_alias_item(n: &CachedNote, alias: &str) -> (r: CompletionItem)
    ensures
        r@ == alias_item(n@, alias@),
{
    let mut doc = joined3("Alias for note **[[", n.title.as_str(), "]]** (`");
    doc.append(n.path.as_str());
    doc.append("`)");
    CompletionItem {
        label: alias.to_owned(),
        kind: KIND_REFERENCE,
        detail: joined3("alias of [[", n.title.as_str(), "]]"),
        insert_text: joined3(n.title.as_str(), "|", alias),
        filter_text: Some(alias.to_owned()),
        documentation: Some(doc),
    }
}

fn make_tag_item(tag: &str) -> (r: CompletionItem)
    ensures
        r@ == tag_item(tag@),
{
    let clean = str_trim_start_char(tag, '#');
    let mut label = "#".to_owned();
    label.append(clean.as_str());
    CompletionItem {
        label,
        kind: KIND_KEYWORD,
        detail: "tag".to_owned(),
        insert_text: clean.clone(),
        filter_text: Some(clean.clone()),
        documentation: Some(joined3("Vault tag `#", clean.as_str(), "`")),
    }
}

/// The items that are offered.
pub fn complete(mode: CompletionMode, notes: &Vec<CachedNote>, tags: &Vec<String>) -> (r: Vec<
    CompletionItem,
>)
    ensures
        views(r@) == items_of(mode, views(notes@), views(tags@)),
{
    broadcast use group_views;

    let ghost all = views(notes@);
    let mut out: Vec<CompletionItem> = Vec::new();
    let mut i: usize = 0;
    match mode {
        CompletionMode::Links => {
            while i < notes.len()
                invariant
                    i <= notes@.len(),
                    all == views(notes@),
                    views(out@) == link_items(all.take(i as int)),
                decreases notes.len() - i,
            {
                assert(all.take(i as int + 1).drop_last() =~= all.take(i as int));
                let n = &notes[i];
                assert(all[i as int] == n@);
                out.push(make_note_item(n));
                let ghost base = views(out@);
                let ghost more = n@.aliases.map_values(|a: Seq<char>| alias_item(n@, a));
                let mut k: usize = 0;
                assert(base + more.take(0) =~= base);
                while k < n.aliases.len()
                    invariant
                        k <= n.aliases@.len(),
                        more == n@.aliases.map_values(|a: Seq<char>| alias_item(n@, a)),
                        views(out@) == base + more.take(k as int),
                    decreases n.aliases.len() - k,
                {
                    assert(n@.aliases[k as int] == n.aliases@[k as int]@);
                    out.push(make_alias_item(n, n.aliases[k].as_str()));
                    let ghost item = more[k as int];
                    assert(more.take(k as int + 1) =~= more.take(k as int).push(item));
                    assert((base + more.take(k as int)).push(item) =~= base + more.take(
                        k as int,
                    ).push(item));
                    k += 1;
                }
                assert(more.take(k as int) =~= more);
                i += 1;
            }
            assert(all.take(i as int) =~= all);
        },
        CompletionMode::Tags => {
            let ghost wanted = views(tags@).map_values(|t: Seq<char>| tag_item(t));
            while i < tags.len()
                invariant
                    i <= tags@.len(),
                    wanted == views(tags@).map_values(|t: Seq<char>| tag_item(t)),
                    views(out@) == wanted.take(i as int),
                decreases tags.len() - i,
            {
                out.push(make_tag_item(tags[i].as_str()));
                i += 1;
                assert(wanted.take(i as int) =~= wanted.take(i as int - 1).push(
                    wanted[i as int - 1],
                ));
            }
            assert(wanted.take(i as int) =~= wanted);
        },
        CompletionMode::Titles => {
            let ghost wanted = all.map_values(|n: CachedModel| title_item(n));
            while i < notes.len()
                invariant
                    i <= notes@.len(),
                    all == views(notes@),
                    wanted == all.map_values(|n: CachedModel| title_item(n)),
                    views(out@) == wanted.take(i as int),
                decreases notes.len() - i,
            {
                let n = &notes[i];
                assert(all[i as int] == n@);
                out.push(
                    CompletionItem {
                        label: n.title.clone(),
                        kind: KIND_REFERENCE,
                        detail: n.path.clone(),
                        insert_text: n.title.clone(),
                        filter_text: None,
                        documentation: None,
                    },
                );
                i += 1;
                assert(wanted.take(i as int) =~= wanted.take(i as int - 1).push(
                    wanted[i as int - 1],
                ));
            }
            assert(wanted.take(i as int) =~= wanted);
        },
    }
    out
}

/// A line of a text; nothing behind the last.
pub open spec fn line_at(text: Seq<char>, line: int) -> Seq<char> {
    if 0 <= line < lines_of(text).len() {
        lines_of(text)[line]
    } else {
        Seq::empty()
    }
}

/// The units of UTF-16 that a character takes.
pub open spec fn utf16_units(c: char) -> nat {
    if c <= '\u{ffff}' {
        1
    } else {
        2
    }
}

/// How far the cursor stands when it is this many units of UTF-16 behind position `i`. A
/// cursor within a character stands before it, one behind the line at its end.
pub open spec fn cursor_at(line: Seq<char>, units: nat, i: int) -> int
    decreases line.len() - i,
{
    if i >= line.len() || units < utf16_units(line[i]) {
        i
    } else {
        cursor_at(line, (units - utf16_units(line[i])) as nat, i + 1)
    }
}

/// The text before the cursor.
pub open spec fn text_before(line: Seq<char>, character: nat) -> Seq<char> {
    line.take(cursor_at(line, character, 0))
}

/// The position of the cursor in bytes.
pub open spec fn byte_column(line: Seq<char>, character: nat) -> usize {
    encode_utf8(text_before(line, character)).len() as usize
}

/// A line of a text; nothing behind the last.
pub fn get_line(text: &str, line: usize) -> (r: String)
    ensures
        r@ == line_at(text@, line as int),
{
    let lines = str_lines(text);
    assert(views(lines@).len() == lines@.len());
    if line < lines.len() {
        assert(views(lines@)[line as int] == lines@[line as int]@);
        lines[line].clone()
    } else {
        String::new()
    }
}

/// The text before the cursor.
pub fn before_cursor(line: &str, character: usize) -> (r: String)
    ensures
        r@ == text_before(line@, character as nat),
{
    let v = chars_of(line);
    let mut left: usize = character;
    let mut i: usize = 0;
    while i < v.len()
        invariant
            i <= v@.len(),
            v@ == line@,
            cursor_at(line@, left as nat, i as int) == cursor_at(line@, character as nat, 0),
        ensures
            i <= v@.len(),
            i == cursor_at(line@, character as nat, 0),
        decreases v.len() - i,
    {
        let width: usize = if v[i] <= '\u{ffff}' {
            1
        } else {
            2
        };
        if left < width {
            break;
        }
        left -= width;
        i += 1;
    }
    let r = string_range(&v, 0, i);
    assert(r@ =~= line@.take(i as int));
    r
}

/// The completions at the cursor.
pub fn handle_completion(
    notes: &Vec<CachedNote>,
    tags: &Vec<String>,
    text: &str,
    line: usize,
    character: usize,
    trigger: Option<&str>,
) -> (r: Vec<CompletionItem>)
    ensures
        views(r@) == items_of(
            mode_of(
                match trigger {
                    Some(t) => Some(t@),
                    None => None,
                },
                text_before(line_at(text@, line as int), character as nat),
            ),
            views(notes@),
            views(tags@),
        ),
{
    let content = get_line(text, line);
    let before = before_cursor(content.as_str(), character);
    complete(completion_mode(trigger, before.as_str()), notes, tags)
}

// ---------------------------------------------------------------------------
// Links under the cursor
// ---------------------------------------------------------------------------

/// A link under the cursor.
#[derive(Debug)]
pub struct CursorLink {
    pub target: String,
    pub heading: Option<String>,
    pub is_embed: bool,
}

/// What a `CursorLink` says.
pub struct CursorModel {
    pub target: Seq<char>,
    pub heading: Option<Seq<char>>,
    pub is_embed: bool,
}

impl View for CursorLink {
    type V = CursorModel;

    open spec fn view(&self) -> CursorModel {
        CursorModel {
            target: self.target@,
            heading: opt_view(self.heading),
            is_embed: self.is_embed,
        }
    }
}

/// The link that a match of the wikilink pattern stands for.
pub open spec fn cursor_link(m: MatchModel) -> CursorModel {
    CursorModel {
        target: match group(m, 2) {
            Some(t) => trim(t),
            None => Seq::empty(),
        },
        heading: match group(m, 4) {
            Some(h) => Some(trim(h)),
            None => None,
        },
        is_embed: group(m, 1) is Some,
    }
}

/// The links that a cursor at this byte touches, in order.
pub open spec fn touched(ms: Seq<MatchModel>, character: usize) -> Seq<CursorModel>
    decreases ms.len(),
{
    if ms.len() == 0 {
        Seq::empty()
    } else {
        let before = touched(ms.drop_last(), character);
        if ms.last().start <= character && character <= ms.last().end {
            before.push(cursor_link(ms.last()))
        } else {
            before
        }
    }
}

/// The links that a cursor at this byte touches, from what the wikilink pattern matched
/// in the line.
pub fn links_under_cursor(ms: &Vec<Match>, character: usize) -> (r: Vec<CursorLink>)
    ensures
        views(r@) == touched(views(ms@), character),
{
    broadcast use group_views;

    let ghost all = views(ms@);
    let mut out: Vec<CursorLink> = Vec::new();
    let mut i: usize = 0;
    while i < ms.len()
        invariant
            i <= ms@.len(),
            all == views(ms@),
            views(out@) == touched(all.take(i as int), character),
        decreases ms.len() - i,
    {
        assert(all.take(i as int + 1).drop_last() =~= all.take(i as int));
        let m = &ms[i];
        assert(all[i as int] == m@);
        if m.start <= character && character <= m.end {
            let target = match group_text(m, 2) {
                Some(t) => str_trim(t.as_str()),
                None => String::new(),
            };
            let heading = match group_text(m, 4) {
                Some(h) => Some(str_trim(h.as_str())),
                None => None,
            };
            out.push(CursorLink { target, heading, is_embed: group_text(m, 1).is_some() });
        }
        i += 1;
    }
    assert(all.take(i as int) =~= all);
    out
}

/// Finds the links of a line.
pub struct LinkFinder {
    wikilink_re: regex::Regex,
}

impl View for LinkFinder {
    type V = Seq<char>;

    /// The pattern by which links are found.
    closed spec fn view(&self) -> Seq<char> {
        pattern_of(self.wikilink_re)
    }
}

impl LinkFinder {
    /// The field holds the wikilink pattern.
    #[verifier::type_invariant]
    spec fn holds_pattern(&self) -> bool {
        self@ == WIKILINK@
    }

    /// A finder that goes by the wikilink pattern.
    pub fn new() -> (r: Self)
        ensures
            r@ == WIKILINK@,
    {
        LinkFinder { wikilink_re: compile(WIKILINK).unwrap() }
    }

    /// The links that the cursor touches.
    pub fn links_at(&self, text: &str, line: usize, character: usize) -> (r: Vec<CursorLink>)
        ensures
            views(r@) == touched(
                pattern_matches(WIKILINK@, line_at(text@, line as int)),
                byte_column(line_at(text@, line as int), character as nat),
            ),
    {
        proof {
            use_type_invariant(self);
        }
        let content = get_line(text, line);
        let ms = matches_in(&self.wikilink_re, content.as_str());
        let before = before_cursor(content.as_str(), character);
        let column: usize = before.as_str().len();
        links_under_cursor(&ms, column)
    }
}

impl Default for LinkFinder {
    fn default() -> (r: Self)
        ensures
            r@ == WIKILINK@,
    {
        LinkFinder::new()
    }
}

/// A stored section: where it stands and what it says.
#[derive(Debug)]
pub struct SectionSpan {
    pub heading: String,
    pub line_start: usize,
    pub line_end: usize,
    pub content: String,
}

/// What a `SectionSpan` says.
pub struct SpanModel {
    pub heading: Seq<char>,
    pub line_start: usize,
    pub line_end: usize,
    pub content: Seq<char>,
}

impl View for SectionSpan {
    type V = SpanModel;

    open spec fn view(&self) -> SpanModel {
        SpanModel {
            heading: self.heading@,
            line_start: self.line_start,
            line_end: self.line_end,
            content: self.content@,
        }
    }
}

/// The first section from `i` on with this heading, or the length.
pub open spec fn span_index(ss: Seq<SpanModel>, heading: Seq<char>, i: int) -> int
    decreases ss.len() - i,
{
    if i >= ss.len() {
        ss.len() as int
    } else if same_ignoring_case(ss[i].heading, heading) {
        i
    } else {
        span_index(ss, heading, i + 1)
    }
}

fn find_span(ss: &Vec<SectionSpan>, heading: &str) -> (r: usize)
    ensures
        r == span_index(views(ss@), heading@, 0),
        r <= ss@.len(),
{
    let ghost all = views(ss@);
    let mut i: usize = 0;
    while i < ss.len()
        invariant
            i <= ss@.len(),
            all == views(ss@),
            span_index(all, heading@, i as int) == span_index(all, heading@, 0),
        decreases ss.len() - i,
    {
        assert(all[i as int] == ss@[i as int]@);
        if eq_ignore_ascii_case(ss[i].heading.as_str(), heading) {
            return i;
        }
        i += 1;
    }
    i
}

/// The line, counted from 0, that a link leads to: that of the heading it names,
/// else the first.
pub fn target_line(sections: &Vec<SectionSpan>, heading: &Option<String>) -> (r: usize)
    ensures
        r == match opt_view(*heading) {
            None => 0,
            Some(h) => {
                let i = span_index(views(sections@), h, 0);
                if i < sections@.len() && views(sections@)[i].line_start > 0 {
                    views(sections@)[i].line_start - 1
                } else {
                    0
                }
            },
        },
{
    match heading {
        None => 0,
        Some(h) => {
            let i: usize = find_span(sections, h.as_str());
            if i < sections.len() {
                assert(views(sections@)[i as int] == sections@[i as int]@);
                sections[i].line_start.saturating_sub(1)
            } else {
                0
            }
        },
    }
}

/// What is shown of a section.
pub open spec fn section_text(title: Seq<char>, s: SpanModel, is_embed: bool) -> Seq<char> {
    "### "@ + title + " > "@ + s.heading + "\n*["@ + (if is_embed {
        "Transclusion Embed"@
    } else {
        "Section Link"@
    }) + "] lines "@ + decimal(s.line_start as nat) + "-"@ + decimal(s.line_end as nat)
        + "*\n\n"@ + trim(s.content)
}

/// What is shown for a link to a heading; nothing where there is no such
/// section.
pub fn section_hover(title: &str, sections: &Vec<SectionSpan>, heading: &str, is_embed: bool) -> (r: Option<
    String,
>)
    ensures
        opt_view(r) == ({
            let i = span_index(views(sections@), heading@, 0);
            if i < sections@.len() {
                Some(section_text(title@, views(sections@)[i], is_embed))
            } else {
                None
            }
        }),
{
    let i: usize = find_span(sections, heading);
    if i >= sections.len() {
        return None;
    }
    assert(views(sections@)[i as int] == sections@[i as int]@);
    let s = &sections[i];
    let mut out = "### ".to_owned();
    out.append(title);
    out.append(" > ");
    out.append(s.heading.as_str());
    out.append("\n*[");
    out.append(
        if is_embed {
            "Transclusion Embed"
        } else {
            "Section Link"
        },
    );
    out.append("] lines ");
    push_decimal(&mut out, s.line_start);
    out.append("-");
    push_decimal(&mut out, s.line_end);
    out.append("*\n\n");
    let content = str_trim(s.content.as_str());
    out.append(content.as_str());
    Some(out)
}

/// A note without its metadata block.
pub open spec fn note_body(raw: Seq<char>) -> Seq<char> {
    if !"---"@.is_prefix_of(raw) {
        raw
    } else {
        match find_from(raw.skip(3), "---"@, 0) {
            Some(k) => trim(raw.skip(3 + k + 3)),
            None => raw,
        }
    }
}

/// The first 800 characters of a note without its metadata block.
pub open spec fn preview_of(raw: Seq<char>) -> Seq<char> {
    let body = note_body(raw);
    if body.len() <= 800 {
        body
    } else {
        body.take(800)
    }
}

fn make_preview(raw: &str) -> (r: String)
    ensures
        r@ == preview_of(raw@),
{
    proof {
        reveal_strlit("---");
    }
    let v = chars_of(raw);
    let n: usize = v.len();
    let mut body = raw.to_owned();
    if str_starts_with(raw, "---") {
        let mark = chars_of("---");
        proof {
            crate::text::lemma_find_in_rest(v@, mark@, 3, 3);
            lemma_find_from(v@, mark@, 3);
        }
        if let Some(k) = find_chars(&v, &mark, 3) {
            let rest = string_range(&v, k + 3, n);
            assert(rest@ =~= raw@.skip(3 + (k - 3) + 3));
            body = str_trim(rest.as_str());
        }
    }
    let b = chars_of(body.as_str());
    let upto: usize = if b.len() <= 800 {
        b.len()
    } else {
        800
    };
    let cut = string_range(&b, 0, upto);
    assert(cut@ =~= preview_of(raw@));
    cut
}

/// What is shown for a link to a note, by its text.
pub fn note_hover(title: &str, path: &str, word_count: usize, is_embed: bool, raw: &str) -> (r: String)
    ensures
        r@ == "### "@ + title@ + "\n*["@ + (if is_embed {
            "Transclusion Note"@
        } else {
            "Note Preview"@
        }) + "] `"@ + path@ + "`* | *Words: "@ + decimal(word_count as nat) + "*\n\n---\n"@ + trim(
            preview_of(raw@),
        ),
{
    let mut out = "### ".to_owned();
    out.append(title);
    out.append("\n*[");
    out.append(
        if is_embed {
            "Transclusion Note"
        } else {
            "Note Preview"
        },
    );
    out.append("] `");
    out.append(path);
    out.append("`* | *Words: ");
    push_decimal(&mut out, word_count);
    out.append("*\n\n---\n");
    let preview = make_preview(raw);
    let shown = str_trim(preview.as_str());
    out.append(shown.as_str());
    out
}

// ---------------------------------------------------------------------------
// What holds of the cursor
// ---------------------------------------------------------------------------

proof fn lemma_find_back(s: Seq<char>, p: Seq<char>, i: int)
    ensures
        match find_back(s, p, i) {
            Some(k) => 0 <= k <= i && occurs_at(s, p, k) && forall|j: int|
                k < j <= i ==> !#[trigger] occurs_at(s, p, j),
            None => forall|j: int| 0 <= j <= i ==> !#[trigger] occurs_at(s, p, j),
        },
    decreases i + 1,
{
    if i >= 0 && !occurs_at(s, p, i) {
        lemma_find_back(s, p, i - 1);
    }
}

/// Behind opening brackets with no closing ones since, links are offered; behind a hash
/// with only letters, numbers, slashes, underscores, hyphens and hashes since, and no
/// link open, tags; else titles. The character that asked counts before the text.
pub proof fn cursor_decides_what_is_offered(a: Seq<char>, b: Seq<char>)
    ensures
        !contains_str("[["@ + b, "]]"@) ==> mode_of(None, a + "[["@ + b) == CompletionMode::Links,
        mode_of(Some("["@), a) == CompletionMode::Links,
        !contains_str(a, "[["@) ==> mode_of(Some("#"@), a) == CompletionMode::Tags,
        !contains_str(a, "[["@) && !a.contains('#') ==> mode_of(None, a) == CompletionMode::Titles,
        !contains_str(a + seq!['#'] + b, "[["@) && !b.contains('#') && (forall|i: int|
            0 <= i < b.len() ==> is_alnum(#[trigger] b[i]) || b[i] == '/' || b[i] == '_' || b[i]
                == '-') ==> mode_of(None, a + seq!['#'] + b) == CompletionMode::Tags,
        !contains_str(a + seq!['#'] + b, "[["@) && !b.contains('#') && (exists|i: int|
            0 <= i < b.len() && !is_tag_char(#[trigger] b[i])) ==> mode_of(None, a + seq!['#'] + b)
            == CompletionMode::Titles,
{
    if !contains_str("[["@ + b, "]]"@) {
        lemma_link_open(a, b);
    }
    if !contains_str(a, "[["@) {
        lemma_no_link(a);
        if !a.contains('#') {
            lemma_no_tag(a);
        }
    }
    if !contains_str(a + seq!['#'] + b, "[["@) && !b.contains('#') {
        lemma_no_link(a + seq!['#'] + b);
        lemma_tag_open(a, b);
    }
    lemma_asking_marks();
}

proof fn lemma_asking_marks()
    ensures
        "["@ != "#"@,
{
    reveal_strlit("[");
    reveal_strlit("#");
    assert("["@[0] == '[' && "#"@[0] == '#');
}

proof fn lemma_link_open(a: Seq<char>, b: Seq<char>)
    requires
        !contains_str("[["@ + b, "]]"@),
    ensures
        link_is_open(a + "[["@ + b),
{
    reveal_strlit("[[");
    reveal_strlit("]]");
    let s = a + "[["@ + b;
    lemma_find_back(s, "[["@, s.len() as int);
    lemma_find_back(s, "]]"@, s.len() as int);
    assert(occurs_at(s, "[["@, a.len() as int)) by {
        assert(s.subrange(a.len() as int, a.len() as int + 2) =~= "[["@);
    }
    match last_of(s, "]]"@) {
        Some(q) => {
            if q >= a.len() {
                let t = "[["@ + b;
                assert(t.subrange(q - a.len(), q - a.len() + 2) =~= s.subrange(q, q + 2));
                assert(occurs_at(t, "]]"@, q - a.len()));
            }
        },
        None => {},
    }
}

proof fn lemma_no_tag(a: Seq<char>)
    requires
        !a.contains('#'),
    ensures
        !tag_is_open(a),
{
    lemma_find_back(a, seq!['#'], a.len() as int);
    match last_of(a, seq!['#']) {
        Some(p) => {
            assert(a.subrange(p, p + 1)[0] == '#');
            assert(a[p] == '#');
        },
        None => {},
    }
}

proof fn lemma_tag_open(a: Seq<char>, b: Seq<char>)
    requires
        !b.contains('#'),
    ensures
        tag_is_open(a + seq!['#'] + b) <==> forall|i: int|
            0 <= i < b.len() ==> is_tag_char(#[trigger] b[i]),
{
    let s = a + seq!['#'] + b;
    lemma_find_back(s, seq!['#'], s.len() as int);
    assert(occurs_at(s, seq!['#'], a.len() as int)) by {
        assert(s.subrange(a.len() as int, a.len() as int + 1) =~= seq!['#']);
    }
    let p = last_of(s, seq!['#'])->0;
    if p > a.len() {
        assert(s.subrange(p, p + 1)[0] == '#');
        assert(b[p - a.len() - 1] == '#');
    }
    assert(p == a.len());
    if forall|i: int| 0 <= i < b.len() ==> is_tag_char(#[trigger] b[i]) {
        assert forall|i: int| p <= i < s.len() implies is_tag_char(#[trigger] s[i]) by {
            if i > p {
                assert(s[i] == b[i - p - 1]);
            }
        }
    }
    if tag_is_open(s) {
        assert forall|i: int| 0 <= i < b.len() implies is_tag_char(#[trigger] b[i]) by {
            assert(s[p + 1 + i] == b[i]);
        }
    }
}

proof fn lemma_no_link(s: Seq<char>)
    requires
        !contains_str(s, "[["@),
    ensures
        !link_is_open(s),
{
    reveal_strlit("[[");
    lemma_find_back(s, "[["@, s.len() as int);
    if "[["@.is_suffix_of(s) {
        assert(s.subrange(s.len() - 2, s.len() as int) =~= "[["@);
        assert(occurs_at(s, "[["@, s.len() - 2));
    }
}

/// A cursor counts in units of UTF-16, of which characters beyond U+FFFF take two: the
/// text before it is the longest that takes no more.
pub proof fn cursor_counts_units(line: Seq<char>, units: nat, i: int)
    requires
        0 <= i <= line.len(),
    ensures
        i <= cursor_at(line, units, i) <= line.len(),
        units_of(line.subrange(i, cursor_at(line, units, i))) <= units,
        cursor_at(line, units, i) < line.len() ==> units_of(
            line.subrange(i, cursor_at(line, units, i) + 1),
        ) > units,
    decreases line.len() - i,
{
    if i >= line.len() || units < utf16_units(line[i]) {
        assert(line.subrange(i, i).len() == 0);
        if i < line.len() {
            lemma_units_first(line, i, i + 1);
            assert(line.subrange(i + 1, i + 1).len() == 0);
        }
    } else {
        let left = (units - utf16_units(line[i])) as nat;
        cursor_counts_units(line, left, i + 1);
        let c = cursor_at(line, left, i + 1);
        lemma_units_first(line, i, c);
        if c < line.len() {
            lemma_units_first(line, i, c + 1);
        }
    }
}

/// How many units of UTF-16 a text takes.
pub open spec fn units_of(s: Seq<char>) -> nat
    decreases s.len(),
{
    if s.len() == 0 {
        0
    } else {
        (if s[0] <= '\u{ffff}' {
            1nat
        } else {
            2
        }) + units_of(s.drop_first())
    }
}

proof fn lemma_units_first(line: Seq<char>, i: int, j: int)
    requires
        0 <= i < j <= line.len(),
    ensures
        units_of(line.subrange(i, j)) == utf16_units(line[i]) + units_of(line.subrange(i + 1, j)),
{
    assert(line.subrange(i, j).drop_first() =~= line.subrange(i + 1, j));
}

/// The links under a cursor are those whose text it stands in or at an end of, in their
/// order: the target and the heading that each names, and whether it is an embed.
pub proof fn cursor_touches_links(ms: Seq<MatchModel>, character: usize)
    ensures
        touched(ms, character).len() == ms.filter(
            |m: MatchModel| m.start <= character <= m.end,
        ).len(),
        forall|k: int|
            0 <= k < touched(ms, character).len() ==> {
                let m = ms.filter(|m: MatchModel| m.start <= character <= m.end)[k];
                let l = #[trigger] touched(ms, character)[k];
                &&& group(m, 2) matches Some(t) ==> l.target == trim(t)
                &&& group(m, 4) matches Some(h) ==> l.heading == Some(trim(h))
                &&& group(m, 4) is None ==> l.heading is None
                &&& l.is_embed <==> group(m, 1) is Some
            },
    decreases ms.len(),
{
    reveal(Seq::filter);
    if ms.len() > 0 {
        cursor_touches_links(ms.drop_last(), character);
    }
}

/// A heading is found in the first section that has it, case aside.
pub proof fn first_section_of_a_heading(ss: Seq<SpanModel>, heading: Seq<char>, i: int)
    requires
        0 <= i <= ss.len(),
    ensures
        i <= span_index(ss, heading, i) <= ss.len(),
        span_index(ss, heading, i) < ss.len() ==> same_ignoring_case(
            ss[span_index(ss, heading, i)].heading,
            heading,
        ),
        forall|j: int|
            i <= j < span_index(ss, heading, i) ==> !same_ignoring_case(
                (#[trigger] ss[j]).heading,
                heading,
            ),
    decreases ss.len() - i,
{
    if i < ss.len() && !same_ignoring_case(ss[i].heading, heading) {
        first_section_of_a_heading(ss, heading, i + 1);
    }
}

/// Within a link every note is offered under its title and under each of its aliases; an
/// alias links to the note. Elsewhere only titles are offered, and of tags all.
pub proof fn every_note_is_offered(
    notes: Seq<CachedModel>,
    tags: Seq<Seq<char>>,
    n: int,
    a: int,
    t: int,
)
    requires
        0 <= n < notes.len(),
    ensures
        exists|k: int|
            0 <= k < items_of(CompletionMode::Links, notes, tags).len() && {
                let item = #[trigger] items_of(CompletionMode::Links, notes, tags)[k];
                &&& item.label == notes[n].title
                &&& item.insert_text == notes[n].title
                &&& item.detail == notes[n].path
            },
        0 <= a < notes[n].aliases.len() ==> exists|k: int|
            0 <= k < items_of(CompletionMode::Links, notes, tags).len() && {
                let item = #[trigger] items_of(CompletionMode::Links, notes, tags)[k];
                &&& item.label == notes[n].aliases[a]
                &&& item.insert_text == notes[n].title + "|"@ + notes[n].aliases[a]
            },
        items_of(CompletionMode::Titles, notes, tags).len() == notes.len(),
        items_of(CompletionMode::Titles, notes, tags)[n].label == notes[n].title,
        items_of(CompletionMode::Titles, notes, tags)[n].insert_text == notes[n].title,
        items_of(CompletionMode::Tags, notes, tags).len() == tags.len(),
        0 <= t < tags.len() ==> items_of(CompletionMode::Tags, notes, tags)[t].insert_text
            == trim_start_char(tags[t], '#') && items_of(CompletionMode::Tags, notes, tags)[t].label
            == "#"@ + trim_start_char(tags[t], '#'),
{
    lemma_link_items(notes, n, a);
    let items = link_items(notes);
    let k = choose|k: int| 0 <= k < items.len() && #[trigger] items[k] == note_item(notes[n]);
    assert(items_of(CompletionMode::Links, notes, tags)[k] == note_item(notes[n]));
    if 0 <= a < notes[n].aliases.len() {
        let q = choose|q: int|
            0 <= q < items.len() && #[trigger] items[q] == alias_item(
                notes[n],
                notes[n].aliases[a],
            );
        assert(items_of(CompletionMode::Links, notes, tags)[q] == alias_item(
            notes[n],
            notes[n].aliases[a],
        ));
    }
}

proof fn lemma_link_items(notes: Seq<CachedModel>, n: int, a: int)
    requires
        0 <= n < notes.len(),
    ensures
        exists|k: int|
            0 <= k < link_items(notes).len() && #[trigger] link_items(notes)[k] == note_item(
                notes[n],
            ),
        0 <= a < notes[n].aliases.len() ==> exists|k: int|
            0 <= k < link_items(notes).len() && #[trigger] link_items(notes)[k] == alias_item(
                notes[n],
                notes[n].aliases[a],
            ),
    decreases notes.len(),
{
    let rest = notes.drop_last();
    let before = link_items(rest);
    let r = link_items(notes);
    if n < rest.len() {
        lemma_link_items(rest, n, a);
        let k = choose|k: int|
            0 <= k < before.len() && #[trigger] before[k] == note_item(rest[n]);
        assert(r[k] == before[k]);
        if 0 <= a < notes[n].aliases.len() {
            let q = choose|q: int|
                0 <= q < before.len() && #[trigger] before[q] == alias_item(
                    rest[n],
                    rest[n].aliases[a],
                );
            assert(r[q] == before[q]);
        }
    } else {
        assert(r[before.len() as int] == note_item(notes[n]));
        if 0 <= a < notes[n].aliases.len() {
            assert(r[before.len() + 1 + a] == alias_item(notes[n], notes[n].aliases[a]));
        }
    }
}

} // verus!
