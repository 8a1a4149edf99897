//! Maps of content and the living index.

use crate::ast::{DocumentModel, LinkModel, ParsedDocument};
use crate::diagnostics::{link_count, push_once};
use crate::graph::{
    dangling_nodes, more_references, no_rank, orphan_nodes, tag_name_list, tag_names, GraphModel,
    KnowledgeGraph, NoteModel,
};
use crate::sorting::{
    is_weak_order, lemma_sorted_members, lemma_sorted_views, sort_by, sorted_by, sorted_differ,
    sorted_is_in_order, sorted_keeps_items,
};
use crate::synthesis::{update_synthesis_content, updated};
use crate::taxonomy::{
    bare, by_rank, note_lines, plain_tag, push_note_lines, ranked_tree, rendered, sort_summaries,
    with_tag_note, NoteSummary, SummaryModel, TagTaxonomy, TaxonomyModel,
};
use crate::text::{
    char_is_alphabetic, chars_of, clone_strings, contains_str, decimal, group_views, holds_str,
    is_alphabetic, join, lowercase, occurs_at, opt_view, push_decimal, same, split_on,
    split_on_nonempty, str_contains, str_join, str_lt, str_split, str_starts_with, str_trim,
    str_trim_start_char, string_range, text_lt, texts_are_ordered, to_lowercase,
    to_uppercase_char, to_uppercase_text, trim, trim_start_char, uppercase, uppercase_char, views,
};
use vstd::prelude::*;
use vstd::utf8::encode_utf8;

verus! {

// ---------------------------------------------------------------------------
// Topics
// ---------------------------------------------------------------------------

/// A part of a tag with its first letter in upper case.
pub open spec fn capitalized(part: Seq<char>) -> Seq<char> {
    if part.len() == 0 {
        Seq::empty()
    } else {
        uppercase_char(part[0]) + part.skip(1)
    }
}

/// Only letters.
pub open spec fn all_letters(s: Seq<char>) -> bool {
    forall|i: int| 0 <= i < s.len() ==> is_alphabetic(#[trigger] s[i])
}

/// How a topic reads in a title: a short word in capitals, else its parts with a
/// capital each.
pub open spec fn topic_title(topic: Seq<char>) -> Seq<char> {
    let clean = plain_tag(topic);
    if encode_utf8(clean).len() as usize <= 3 && all_letters(clean) {
        uppercase(clean)
    } else {
        join(split_on(clean, '/').map_values(|p: Seq<char>| capitalized(p)), " - "@)
    }
}

/// The text with the characters that no file name may hold turned into dashes.
pub open spec fn file_safe(s: Seq<char>) -> Seq<char>
    decreases s.len(),
{
    if s.len() == 0 {
        Seq::empty()
    } else {
        let before = file_safe(s.drop_last());
        if s.last() == '/' || s.last() == '\\' || s.last() == ':' {
            before + " - "@
        } else {
            before.push(s.last())
        }
    }
}

/// The title of the map of a topic.
pub open spec fn moc_title(topic: Seq<char>) -> Seq<char> {
    "MOC - "@ + file_safe(topic_title(topic))
}

/// The file name of the map of a topic.
pub open spec fn moc_file_name(topic: Seq<char>) -> Seq<char> {
    moc_title(topic) + ".md"@
}

fn capitalize(part: &str) -> (r: String)
    ensures
        r@ == capitalized(part@),
{
    let v = chars_of(part);
    let n: usize = v.len();
    if n == 0 {
        return String::new();
    }
    let mut out = to_uppercase_char(v[0]);
    let rest = string_range(&v, 1, n);
    assert(rest@ =~= part@.skip(1));
    out.append(rest.as_str());
    out
}

fn only_letters(s: &str) -> (r: bool)
    ensures
        r == all_letters(s@),
{
    let v = chars_of(s);
    let mut i: usize = 0;
    while i < v.len()
        invariant
            i <= v@.len(),
            v@ == s@,
            forall|j: int| 0 <= j < i ==> is_alphabetic(#[trigger] s@[j]),
        decreases v.len() - i,
    {
        if !char_is_alphabetic(v[i]) {
            assert(!is_alphabetic(s@[i as int]));
            return false;
        }
        i += 1;
    }
    true
}

fn make_file_safe(s: &str) -> (r: String)
    ensures
        r@ == file_safe(s@),
{
    let v = chars_of(s);
    let mut out = String::new();
    let mut i: usize = 0;
    while i < v.len()
        invariant
            i <= v@.len(),
            out@ == file_safe(v@.take(i as int)),
        decreases v.len() - i,
    {
        assert(v@.take(i as int + 1).drop_last() =~= v@.take(i as int));
        let c = v[i];
        if c == '/' || c == '\\' || c == ':' {
            out.append(" - ");
        } else {
            out.push(c);
        }
        i += 1;
    }
    assert(v@.take(i as int) =~= v@);
    out
}

/// The title and the file name of the map of a topic.
pub fn sanitize_topic_name(topic: &str) -> (r: (String, String))
    ensures
        r.0@ == moc_title(topic@),
        r.1@ == moc_file_name(topic@),
{
    broadcast use group_views;

    let trimmed = str_trim(topic);
    let clean = str_trim_start_char(trimmed.as_str(), '#');
    let bytes: usize = clean.as_str().len();
    let title = if bytes <= 3 && only_letters(clean.as_str()) {
        to_uppercase_text(clean.as_str())
    } else {
        let parts = str_split(clean.as_str(), '/');
        let ghost wanted = views(parts@).map_values(|p: Seq<char>| capitalized(p));
        let mut out: Vec<String> = Vec::new();
        let mut i: usize = 0;
        while i < parts.len()
            invariant
                i <= parts@.len(),
                wanted == views(parts@).map_values(|p: Seq<char>| capitalized(p)),
                views(out@) == wanted.take(i as int),
            decreases parts.len() - i,
        {
            out.push(capitalize(parts[i].as_str()));
            i += 1;
            assert(wanted.take(i as int) =~= wanted.take(i as int - 1).push(wanted[i as int - 1]));
        }
        assert(wanted.take(i as int) =~= wanted);
        str_join(&out, " - ")
    };
    let safe = make_file_safe(title.as_str());
    let mut moc = "MOC - ".to_owned();
    moc.append(safe.as_str());
    let mut file = moc.clone();
    file.append(".md");
    (moc, file)
}

/// The top level of a tag.
pub open spec fn top_segment(tag: Seq<char>) -> Seq<char> {
    split_on(plain_tag(tag), '/')[0]
}

/// The top levels of these tags, each once.
pub open spec fn with_topics(found: Seq<Seq<char>>, tags: Seq<Seq<char>>) -> Seq<Seq<char>>
    decreases tags.len(),
{
    if tags.len() == 0 {
        found
    } else {
        let before = with_topics(found, tags.drop_last());
        if plain_tag(tags.last()).len() == 0 {
            before
        } else {
            crate::diagnostics::with_once(before, top_segment(tags.last()))
        }
    }
}

/// The topics of these notes, each once, in the order in which they come.
pub open spec fn topics_met(notes: Seq<SummaryModel>) -> Seq<Seq<char>>
    decreases notes.len(),
{
    if notes.len() == 0 {
        Seq::empty()
    } else {
        with_topics(topics_met(notes.drop_last()), notes.last().tags)
    }
}

/// The topics of these notes in alphabetical order.
pub open spec fn topics_of(notes: Seq<SummaryModel>) -> Seq<Seq<char>> {
    sorted_by(topics_met(notes), |a: Seq<char>, b: Seq<char>| text_lt(a, b))
}

fn string_less(a: &String, b: &String) -> (r: bool)
    ensures
        r == text_lt(a@, b@),
{
    str_lt(a.as_str(), b.as_str())
}

/// A topic as tags are compared with it.
pub open spec fn topic_key(topic: Seq<char>) -> Seq<char> {
    lowercase(plain_tag(topic))
}

/// Whether a tag is the topic or lies below it.
pub open spec fn tag_under(tag: Seq<char>, key: Seq<char>) -> bool {
    let c = topic_key(tag);
    c == key || (key + "/"@).is_prefix_of(c)
}

/// Whether a tag is the topic, lies below it, or has it as one of its levels.
pub open spec fn tag_touches(tag: Seq<char>, key: Seq<char>) -> bool {
    tag_under(tag, key) || split_on(topic_key(tag), '/').contains(key)
}

/// Whether a note belongs to a topic, by one of its tags or by its title.
pub open spec fn note_matches(note: SummaryModel, key: Seq<char>, any_level: bool) -> bool {
    (exists|k: int|
        0 <= k < note.tags.len() && (if any_level {
            tag_touches(#[trigger] note.tags[k], key)
        } else {
            tag_under(note.tags[k], key)
        })) || contains_str(lowercase(note.title), key)
}

/// The notes that belong to a topic.
pub open spec fn notes_of_topic(notes: Seq<SummaryModel>, key: Seq<char>, any_level: bool) -> Seq<
    SummaryModel,
>
    decreases notes.len(),
{
    if notes.len() == 0 {
        Seq::empty()
    } else {
        let before = notes_of_topic(notes.drop_last(), key, any_level);
        if note_matches(notes.last(), key, any_level) {
            before.push(notes.last())
        } else {
            before
        }
    }
}

pub(crate) fn topic_key_text(topic: &str) -> (r: String)
    ensures
        r@ == topic_key(topic@),
{
    let trimmed = str_trim(topic);
    let clean = str_trim_start_char(trimmed.as_str(), '#');
    to_lowercase(clean.as_str())
}

pub(crate) fn tag_matches(tag: &str, key: &str, any_level: bool) -> (r: bool)
    ensures
        r == if any_level {
            tag_touches(tag@, key@)
        } else {
            tag_under(tag@, key@)
        },
{
    let c = topic_key_text(tag);
    if same(c.as_str(), key) {
        return true;
    }
    let mut below = key.to_owned();
    below.append("/");
    if str_starts_with(c.as_str(), below.as_str()) {
        return true;
    }
    if any_level {
        let parts = str_split(c.as_str(), '/');
        holds_str(&parts, key)
    } else {
        false
    }
}

fn matches_topic(note: &NoteSummary, key: &str, any_level: bool) -> (r: bool)
    ensures
        r == note_matches(note@, key@, any_level),
{
    let ghost tags = note@.tags;
    let mut k: usize = 0;
    while k < note.tags.len()
        invariant
            k <= note.tags@.len(),
            tags == note@.tags,
            forall|j: int|
                0 <= j < k ==> !(if any_level {
                    tag_touches(#[trigger] tags[j], key@)
                } else {
                    tag_under(tags[j], key@)
                }),
        decreases note.tags.len() - k,
    {
        assert(tags[k as int] == note.tags@[k as int]@);
        if tag_matches(note.tags[k].as_str(), key, any_level) {
            return true;
        }
        k += 1;
    }
    let low = to_lowercase(note.title.as_str());
    str_contains(low.as_str(), key)
}

fn select_notes(notes: &Vec<NoteSummary>, key: &str, any_level: bool) -> (r: Vec<NoteSummary>)
    ensures
        views(r@) == notes_of_topic(views(notes@), key@, any_level),
{
    broadcast use group_views;

    let ghost all = views(notes@);
    let mut out: Vec<NoteSummary> = Vec::new();
    let mut i: usize = 0;
    while i < notes.len()
        invariant
            i <= notes@.len(),
            all == views(notes@),
            views(out@) == notes_of_topic(all.take(i as int), key@, any_level),
        decreases notes.len() - i,
    {
        assert(all.take(i as int + 1).drop_last() =~= all.take(i as int));
        assert(all[i as int] == notes@[i as int]@);
        if matches_topic(&notes[i], key, any_level) {
            out.push(notes[i].clone());
        }
        i += 1;
    }
    assert(all.take(i as int) =~= all);
    out
}

// ---------------------------------------------------------------------------
// Summaries
// ---------------------------------------------------------------------------

/// What an index tells of a note, by the graph it is in.
pub open spec fn summary_of(doc: DocumentModel, g: GraphModel) -> SummaryModel {
    let n = g.titled(doc.title);
    SummaryModel {
        title: doc.title,
        path: doc.path,
        tags: tag_names(doc.tags),
        word_count: doc.word_count as usize,
        pagerank: match n {
            Some(n) => g.nodes[n as int].pagerank,
            None => no_rank(),
        },
        in_degree: match n {
            Some(n) => g.in_degree(n as int) as usize,
            None => 0,
        },
        out_degree: match n {
            Some(n) => g.out_degree(n as int) as usize,
            None => 0,
        },
    }
}

/// What an index tells of these notes, in its order.
pub open spec fn summaries_of(docs: Seq<DocumentModel>, g: GraphModel) -> Seq<SummaryModel> {
    by_rank(docs.map_values(|d: DocumentModel| summary_of(d, g)))
}

// ---------------------------------------------------------------------------
// The map of a topic
// ---------------------------------------------------------------------------

/// The tree with a note under each of these tags.
pub open spec fn with_tags_of(t: TaxonomyModel, tags: Seq<Seq<char>>, note: SummaryModel) -> TaxonomyModel
    decreases tags.len(),
{
    if tags.len() == 0 {
        t
    } else {
        with_tag_note(with_tags_of(t, tags.drop_last(), note), tags.last(), note)
    }
}

/// The tree of these notes.
pub open spec fn taxonomy_of(notes: Seq<SummaryModel>) -> TaxonomyModel
    decreases notes.len(),
{
    if notes.len() == 0 {
        bare(Seq::empty(), Seq::empty())
    } else {
        with_tags_of(taxonomy_of(notes.drop_last()), notes.last().tags, notes.last())
    }
}

/// The text with a short line for each of the first `n` notes.
pub open spec fn short_lines(out: Seq<char>, notes: Seq<SummaryModel>, n: int) -> Seq<char>
    decreases n,
{
    if n <= 0 {
        out
    } else {
        short_lines(out, notes, n - 1) + "- [["@ + notes[n - 1].title + "]] · Hub: "@
            + notes[n - 1].pagerank.short + "\n"@
    }
}

/// The titles in lower case.
pub open spec fn title_keys(notes: Seq<SummaryModel>) -> Seq<Seq<char>> {
    notes.map_values(|n: SummaryModel| lowercase(n.title))
}

/// The first connection from `i` on to this target, or the length.
pub open spec fn connection_index(cs: Seq<(Seq<char>, usize)>, target: Seq<char>, i: int) -> int
    decreases cs.len() - i,
{
    if i >= cs.len() {
        cs.len() as int
    } else if cs[i].0 == target {
        i
    } else {
        connection_index(cs, target, i + 1)
    }
}

/// The connections with one more reference to a target.
pub open spec fn with_connection(cs: Seq<(Seq<char>, usize)>, target: Seq<char>) -> Seq<
    (Seq<char>, usize),
> {
    let i = connection_index(cs, target, 0);
    if i < cs.len() {
        cs.update(i, (target, (cs[i].1 + 1) as usize))
    } else {
        cs.push((target, 1))
    }
}

/// The connections with those links that leave the topic.
pub open spec fn with_connections(
    cs: Seq<(Seq<char>, usize)>,
    inside: Seq<Seq<char>>,
    links: Seq<LinkModel>,
) -> Seq<(Seq<char>, usize)>
    decreases links.len(),
{
    if links.len() == 0 {
        cs
    } else {
        let before = with_connections(cs, inside, links.drop_last());
        let low = lowercase(links.last().target_note);
        if inside.contains(low) || low.len() == 0 {
            before
        } else {
            with_connection(before, links.last().target_note)
        }
    }
}

/// How often the notes of a topic refer to each target outside it.
pub open spec fn connections_of(docs: Seq<DocumentModel>, inside: Seq<Seq<char>>) -> Seq<
    (Seq<char>, usize),
>
    decreases docs.len(),
{
    if docs.len() == 0 {
        Seq::empty()
    } else {
        let before = connections_of(docs.drop_last(), inside);
        if inside.contains(lowercase(docs.last().title)) {
            with_connections(before, inside, docs.last().links)
        } else {
            before
        }
    }
}

/// Whether a connection comes before another: the more references first, then by
/// name.
pub open spec fn stronger(a: (Seq<char>, usize), b: (Seq<char>, usize)) -> bool {
    a.1 > b.1 || (a.1 == b.1 && text_lt(a.0, b.0))
}

fn connection_less(a: &(String, usize), b: &(String, usize)) -> (r: bool)
    ensures
        r == stronger(a@, b@),
{
    if a.1 != b.1 {
        return b.1 < a.1;
    }
    str_lt(a.0.as_str(), b.0.as_str())
}

/// The text with a line for each of the first `n` connections.
pub open spec fn connection_lines(out: Seq<char>, cs: Seq<(Seq<char>, usize)>, n: int) -> Seq<char>
    decreases n,
{
    if n <= 0 {
        out
    } else {
        connection_lines(out, cs, n - 1) + "- [["@ + cs[n - 1].0 + "]] ("@ + decimal(
            cs[n - 1].1 as nat,
        ) + " references)\n"@
    }
}

/// The smaller of two numbers.
pub open spec fn at_most(n: nat, cap: nat) -> nat {
    if n <= cap {
        n
    } else {
        cap
    }
}

/// The text with the tree of the notes, under a heading, where there is any.
pub open spec fn with_tree(out: Seq<char>, heading: Seq<char>, notes: Seq<SummaryModel>) -> Seq<char> {
    let t = ranked_tree(taxonomy_of(notes));
    if t.children.len() == 0 {
        out
    } else {
        rendered(out + heading, t, 1, t.children.len() as int)
    }
}

/// The notes of a topic in the order of an index.
pub open spec fn topic_notes(topic: Seq<char>, notes: Seq<SummaryModel>) -> Seq<SummaryModel> {
    by_rank(notes_of_topic(notes, topic_key(topic), true))
}

/// The text with the connections of a topic, under a heading, where there are
/// any: the ten strongest.
pub open spec fn with_outside(out: Seq<char>, cs: Seq<(Seq<char>, usize)>) -> Seq<char> {
    if cs.len() == 0 {
        out
    } else {
        let sorted = sorted_by(
            cs,
            |a: (Seq<char>, usize), b: (Seq<char>, usize)| stronger(a, b),
        );
        connection_lines(
            out + "### Connected Vault Concepts\n\n"@
                + "Outgoing references connecting this topic to broader knowledge:\n\n"@,
            sorted,
            at_most(sorted.len(), 10) as int,
        ) + "\n"@
    }
}

/// The map of a topic.
pub open spec fn topic_text(
    topic: Seq<char>,
    notes: Seq<SummaryModel>,
    docs: Seq<DocumentModel>,
) -> Seq<char> {
    let own = topic_notes(topic, notes);
    let head = "## Topic Overview\n\n"@ + "- **Topic**: `"@ + topic + "`\n"@
        + "- **Total Notes**: "@ + decimal(own.len()) + "\n"@
        + "- **Ordering**: Hub Centrality (PageRank descending)\n\n"@;
    let hubs = if own.len() == 0 {
        head
    } else {
        note_lines(
            head + "### Key Hub Notes & Core Concepts\n\n"@,
            own,
            "Hub Score: "@,
            at_most(own.len(), 5) as int,
        ) + "\n"@
    };
    let tree = with_tree(hubs, "### Taxonomy Breakdown\n\n"@, own);
    let index = tree + "### Note Index\n\n"@;
    let listed = if own.len() == 0 {
        index + "_No notes currently categorized under this topic._\n\n"@
    } else {
        short_lines(index, own, own.len() as int) + "\n"@
    };
    with_outside(listed, connections_of(docs, title_keys(own)))
}

/// The titles of the first notes of a topic, five at most.
pub open spec fn hub_titles(own: Seq<SummaryModel>) -> Seq<Seq<char>> {
    own.take(at_most(own.len(), 5) as int).map_values(|n: SummaryModel| n.title)
}

// ---------------------------------------------------------------------------
// The living index
// ---------------------------------------------------------------------------

/// The map of a topic as the index lists it.
#[derive(Debug)]
pub struct TopicMocInfo {
    pub topic: String,
    pub file_name: String,
    pub title: String,
    pub note_count: usize,
    pub hub_notes: Vec<String>,
}

/// What a `TopicMocInfo` says.
pub struct TopicModel {
    pub topic: Seq<char>,
    pub file_name: Seq<char>,
    pub title: Seq<char>,
    pub note_count: usize,
    pub hub_notes: Seq<Seq<char>>,
}

impl View for TopicMocInfo {
    type V = TopicModel;

    open spec fn view(&self) -> TopicModel {
        TopicModel {
            topic: self.topic@,
            file_name: self.file_name@,
            title: self.title@,
            note_count: self.note_count,
            hub_notes: views(self.hub_notes@),
        }
    }
}

/// How many words the notes have.
pub open spec fn word_total(notes: Seq<SummaryModel>) -> nat
    decreases notes.len(),
{
    if notes.len() == 0 {
        0
    } else {
        word_total(notes.drop_last()) + notes.last().word_count as nat
    }
}

/// The text with a line for each of the first `n` maps.
pub open spec fn moc_lines(out: Seq<char>, mocs: Seq<TopicModel>, n: int) -> Seq<char>
    decreases n,
{
    if n <= 0 {
        out
    } else {
        moc_lines(out, mocs, n - 1) + "- [["@ + mocs[n - 1].title + "]] ("@ + decimal(
            mocs[n - 1].note_count as nat,
        ) + " notes)\n"@
    }
}

/// The notes without tags.
pub open spec fn untagged_of(notes: Seq<SummaryModel>) -> Seq<SummaryModel>
    decreases notes.len(),
{
    if notes.len() == 0 {
        Seq::empty()
    } else {
        let before = untagged_of(notes.drop_last());
        if notes.last().tags.len() == 0 {
            before.push(notes.last())
        } else {
            before
        }
    }
}

/// The living index.
pub open spec fn index_text(
    notes: Seq<SummaryModel>,
    mocs: Seq<TopicModel>,
    orphans: nat,
    wanted: nat,
) -> Seq<char> {
    let head = "## Vault Overview\n\n"@ + "- **Total Notes**: "@ + decimal(notes.len()) + "\n"@
        + "- **Topic MOCs**: "@ + decimal(mocs.len()) + "\n"@ + "- **Total Words**: "@ + decimal(
        word_total(notes),
    ) + "\n"@ + "- **Orphan Notes**: "@ + decimal(orphans) + " ([[Orphans]])\n"@
        + "- **Wanted Notes**: "@ + decimal(wanted) + "\n\n"@;
    let maps = if mocs.len() == 0 {
        head
    } else {
        moc_lines(head + "## Maps of Content (MOCs)\n\n"@, mocs, mocs.len() as int) + "\n"@
    };
    let hubs = if notes.len() == 0 {
        maps
    } else {
        note_lines(
            maps + "## Key Vault Hubs (High Centrality)\n\n"@,
            notes,
            "PageRank: "@,
            at_most(notes.len(), 7) as int,
        ) + "\n"@
    };
    let tree = with_tree(hubs, "## Vault Taxonomy\n\n"@, notes);
    let bare_notes = by_rank(untagged_of(notes));
    let untagged = if bare_notes.len() == 0 {
        tree
    } else {
        short_lines(tree + "## Untagged Notes\n\n"@, bare_notes, bare_notes.len() as int) + "\n"@
    };
    let health = untagged + "## Vault Health\n\n"@;
    let orphan_line = if orphans == 0 {
        health + "- ✓ **Orphans**: Zero isolated notes detected. Vault graph is connected.\n"@
    } else {
        health + "- ⚡ **Orphans**: [[Orphans]] ("@ + decimal(orphans)
            + " notes need connections)\n"@
    };
    if wanted == 0 {
        orphan_line + "- ✓ **Wanted Pages**: All wikilinks resolve to existing notes.\n"@
    } else {
        orphan_line + "- ⚡ **Wanted Pages**: "@ + decimal(wanted) + " unresolved references.\n"@
    }
}

/// The text with a line for each of the first `n` isolated notes.
pub open spec fn orphan_lines(out: Seq<char>, notes: Seq<SummaryModel>, n: int) -> Seq<char>
    decreases n,
{
    if n <= 0 {
        out
    } else {
        orphan_lines(out, notes, n - 1) + "- [["@ + notes[n - 1].title + "]] (`"@ + notes[n
            - 1].path + "`) · Words: "@ + decimal(notes[n - 1].word_count as nat) + "\n"@
    }
}

/// The catalog of isolated notes.
pub open spec fn orphans_text(orphans: Seq<SummaryModel>) -> Seq<char> {
    if orphans.len() == 0 {
        "## Vault Connection Status: Healthy\n\n"@
            + "✓ **Zero isolated orphan notes detected!** Every note in the vault has at least one incoming or outgoing wikilink.\n"@
    } else {
        orphan_lines(
            "## Isolated Notes ("@ + decimal(orphans.len()) + ")\n\n"@
                + "The following notes have zero incoming and zero outgoing links in the knowledge graph:\n\n"@,
            orphans,
            orphans.len() as int,
        ) + "\n### Suggested Next Steps\n\n"@
            + "1. Connect these notes to relevant central hubs using `[[Note Title]]` wikilinks.\n"@
            + "2. Reference them in appropriate Maps of Content (MOCs).\n"@
            + "3. Add hierarchical tags (e.g. `#topic/subtopic`) so they integrate into the taxonomy tree.\n"@
    }
}

fn push_short_lines(out: &mut String, notes: &Vec<NoteSummary>)
    ensures
        final(out)@ == short_lines(old(out)@, views(notes@), notes@.len() as int),
{
    let ghost before = out@;
    let mut i: usize = 0;
    while i < notes.len()
        invariant
            i <= notes@.len(),
            out@ == short_lines(before, views(notes@), i as int),
        decreases notes.len() - i,
    {
        assert(views(notes@)[i as int] == notes@[i as int]@);
        out.append("- [[");
        out.append(notes[i].title.as_str());
        out.append("]] · Hub: ");
        out.append(notes[i].pagerank.short.as_str());
        out.append("\n");
        i += 1;
    }
}

fn build_taxonomy(notes: &Vec<NoteSummary>) -> (r: TagTaxonomy)
    ensures
        r@ == taxonomy_of(views(notes@)),
{
    let ghost all = views(notes@);
    let mut t = TagTaxonomy::default();
    let mut i: usize = 0;
    while i < notes.len()
        invariant
            i <= notes@.len(),
            all == views(notes@),
            t@ == taxonomy_of(all.take(i as int)),
        decreases notes.len() - i,
    {
        assert(all.take(i as int + 1).drop_last() =~= all.take(i as int));
        let note = &notes[i];
        assert(all[i as int] == note@);
        let ghost tags = note@.tags;
        let ghost start = t@;
        let mut k: usize = 0;
        assert(tags.take(0) =~= Seq::empty());
        while k < note.tags.len()
            invariant
                k <= note.tags@.len(),
                tags == note@.tags,
                t@ == with_tags_of(start, tags.take(k as int), note@),
            decreases note.tags.len() - k,
        {
            assert(tags.take(k as int + 1).drop_last() =~= tags.take(k as int));
            assert(tags[k as int] == note.tags@[k as int]@);
            t.insert(note.tags[k].as_str(), note);
            k += 1;
        }
        assert(tags.take(k as int) =~= tags);
        i += 1;
    }
    assert(all.take(i as int) =~= all);
    t
}

fn push_tree(out: &mut String, heading: &str, notes: &Vec<NoteSummary>)
    ensures
        final(out)@ == with_tree(old(out)@, heading@, views(notes@)),
{
    let mut t = build_taxonomy(notes);
    t.sort_by_pagerank();
    proof {
        t.lemma_children();
    }
    if t.children.len() > 0 {
        out.append(heading);
        t.render_markdown(1, out);
    }
}

fn push_connection(cs: &mut Vec<(String, usize)>, target: &str)
    requires
        forall|k: int| 0 <= k < old(cs)@.len() ==> (#[trigger] old(cs)@[k]).1 < usize::MAX,
    ensures
        views(final(cs)@) == with_connection(views(old(cs)@), target@),
{
    broadcast use group_views;

    let ghost all = views(cs@);
    let mut i: usize = 0;
    while i < cs.len()
        invariant
            i <= cs@.len(),
            all == views(cs@),
            all == views(old(cs)@),
            forall|k: int| 0 <= k < cs@.len() ==> (#[trigger] cs@[k]).1 < usize::MAX,
            connection_index(all, target@, i as int) == connection_index(all, target@, 0),
        decreases cs.len() - i,
    {
        assert(all[i as int] == cs@[i as int]@);
        if same(cs[i].0.as_str(), target) {
            let (name, count): (String, usize) = cs.remove(i);
            cs.insert(i, (name, count + 1));
            assert(views(cs@) =~= with_connection(all, target@));
            return;
        }
        i += 1;
    }
    cs.push((target.to_owned(), 1));
}

/// No connection counts more references than this.
spec fn counts_bounded(cs: Seq<(Seq<char>, usize)>, n: int) -> bool {
    forall|k: int| 0 <= k < cs.len() ==> (#[trigger] cs[k]).1 <= n
}

proof fn lemma_connection_bounded(cs: Seq<(Seq<char>, usize)>, target: Seq<char>, n: int)
    requires
        counts_bounded(cs, n),
        0 <= n < usize::MAX,
    ensures
        counts_bounded(with_connection(cs, target), n + 1),
{
    let r = with_connection(cs, target);
    let i = connection_index(cs, target, 0);
    lemma_connection_index(cs, target, 0);
    assert forall|k: int| 0 <= k < r.len() implies (#[trigger] r[k]).1 <= n + 1 by {
        if k < cs.len() {
            assert(cs[k].1 <= n);
        }
    }
}

proof fn lemma_connection_index(cs: Seq<(Seq<char>, usize)>, target: Seq<char>, i: int)
    requires
        0 <= i <= cs.len(),
    ensures
        i <= connection_index(cs, target, i) <= cs.len(),
    decreases cs.len() - i,
{
    if i < cs.len() && cs[i].0 != target {
        lemma_connection_index(cs, target, i + 1);
    }
}

fn count_connections(docs: &Vec<ParsedDocument>, inside: &Vec<String>) -> (r: Vec<(String, usize)>)
    requires
        link_count(views(docs@)) <= usize::MAX,
    ensures
        views(r@) == connections_of(views(docs@), views(inside@)),
{
    broadcast use group_views;

    let ghost all = views(docs@);
    let ghost keys = views(inside@);
    let mut cs: Vec<(String, usize)> = Vec::new();
    let ghost mut seen: int = 0;
    let mut i: usize = 0;
    while i < docs.len()
        invariant
            i <= docs@.len(),
            all == views(docs@),
            keys == views(inside@),
            link_count(all) <= usize::MAX,
            0 <= seen <= link_count(all.take(i as int)),
            counts_bounded(views(cs@), seen),
            views(cs@) == connections_of(all.take(i as int), keys),
        decreases docs.len() - i,
    {
        assert(all.take(i as int + 1).drop_last() =~= all.take(i as int));
        let doc = &docs[i];
        assert(all[i as int] == doc@);
        proof {
            crate::diagnostics::lemma_link_count(all, i as int + 1);
        }
        let low = to_lowercase(doc.title.as_str());
        if holds_str(inside, low.as_str()) {
            let ghost links = views(doc.links@);
            let ghost start = views(cs@);
            let ghost base = seen;
            let mut k: usize = 0;
            assert(links.take(0) =~= Seq::empty());
            while k < doc.links.len()
                invariant
                    k <= doc.links@.len(),
                    links == views(doc.links@),
                    keys == views(inside@),
                    base + doc.links@.len() <= usize::MAX,
                    0 <= base <= seen <= base + k,
                    counts_bounded(views(cs@), seen),
                    views(cs@) == with_connections(start, keys, links.take(k as int)),
                decreases doc.links.len() - k,
            {
                assert(links.take(k as int + 1).drop_last() =~= links.take(k as int));
                let link = &doc.links[k];
                assert(links[k as int] == link@);
                let target_low = to_lowercase(link.target_note.as_str());
                if !holds_str(inside, target_low.as_str()) && !target_low.as_str().is_empty() {
                    proof {
                        lemma_connection_bounded(views(cs@), link.target_note@, seen);
                        assert forall|q: int| 0 <= q < cs@.len() implies (#[trigger] cs@[q]).1
                            < usize::MAX by {
                            assert(views(cs@)[q].1 <= seen);
                        }
                        seen = seen + 1;
                    }
                    push_connection(&mut cs, link.target_note.as_str());
                }
                k += 1;
            }
            assert(links.take(k as int) =~= links);
        }
        i += 1;
    }
    assert(all.take(i as int) =~= all);
    cs
}

fn push_outside(out: &mut String, cs: Vec<(String, usize)>)
    ensures
        final(out)@ == with_outside(old(out)@, views(cs@)),
{
    if cs.len() == 0 {
        return;
    }
    out.append("### Connected Vault Concepts\n\n");
    out.append("Outgoing references connecting this topic to broader knowledge:\n\n");
    let ghost lt = |a: (String, usize), b: (String, usize)| stronger(a@, b@);
    let ghost lt_view = |a: (Seq<char>, usize), b: (Seq<char>, usize)| stronger(a, b);
    proof {
        lemma_sorted_views(cs@, lt, lt_view);
    }
    let sorted = sort_by(cs, connection_less, Ghost(lt));
    let ghost head = out@;
    let n: usize = if sorted.len() <= 10 {
        sorted.len()
    } else {
        10
    };
    let mut i: usize = 0;
    while i < n
        invariant
            i <= n <= sorted@.len(),
            out@ == connection_lines(head, views(sorted@), i as int),
        decreases n - i,
    {
        assert(views(sorted@)[i as int] == sorted@[i as int]@);
        out.append("- [[");
        out.append(sorted[i].0.as_str());
        out.append("]] (");
        push_decimal(out, sorted[i].1);
        out.append(" references)\n");
        i += 1;
    }
    out.append("\n");
}

// ---------------------------------------------------------------------------
// Files
// ---------------------------------------------------------------------------

/// A generated note: its file name and its text.
#[derive(Debug)]
pub struct NoteFile {
    pub name: String,
    pub text: String,
}

impl View for NoteFile {
    type V = (Seq<char>, Seq<char>);

    open spec fn view(&self) -> (Seq<char>, Seq<char>) {
        (self.name@, self.text@)
    }
}

/// The first file from `i` on with this name, or the length.
pub open spec fn file_index(files: Seq<(Seq<char>, Seq<char>)>, name: Seq<char>, i: int) -> int
    decreases files.len() - i,
{
    if i >= files.len() {
        files.len() as int
    } else if files[i].0 == name {
        i
    } else {
        file_index(files, name, i + 1)
    }
}

/// The text of a file; nothing where there is no such file.
pub open spec fn file_text(files: Seq<(Seq<char>, Seq<char>)>, name: Seq<char>) -> Seq<char> {
    let i = file_index(files, name, 0);
    if i < files.len() {
        files[i].1
    } else {
        Seq::empty()
    }
}

/// The files with this text in the file of this name.
pub open spec fn with_file(
    files: Seq<(Seq<char>, Seq<char>)>,
    name: Seq<char>,
    text: Seq<char>,
) -> Seq<(Seq<char>, Seq<char>)> {
    let i = file_index(files, name, 0);
    if i < files.len() {
        files.update(i, (name, text))
    } else {
        files.push((name, text))
    }
}

fn find_file(files: &Vec<NoteFile>, name: &str) -> (r: usize)
    ensures
        r == file_index(views(files@), name@, 0),
        r <= files@.len(),
{
    let ghost all = views(files@);
    let mut i: usize = 0;
    while i < files.len()
        invariant
            i <= files@.len(),
            all == views(files@),
            file_index(all, name@, i as int) == file_index(all, name@, 0),
        decreases files.len() - i,
    {
        assert(all[i as int] == files@[i as int]@);
        if same(files[i].name.as_str(), name) {
            return i;
        }
        i += 1;
    }
    i
}

fn read_file(files: &Vec<NoteFile>, name: &str) -> (r: String)
    ensures
        r@ == file_text(views(files@), name@),
{
    let i: usize = find_file(files, name);
    if i < files.len() {
        assert(views(files@)[i as int] == files@[i as int]@);
        files[i].text.clone()
    } else {
        String::new()
    }
}

fn write_file(files: &mut Vec<NoteFile>, name: &str, text: String)
    ensures
        views(final(files)@) == with_file(views(old(files)@), name@, text@),
{
    broadcast use group_views;

    let ghost all = views(files@);
    let i: usize = find_file(files, name);
    let file = NoteFile { name: name.to_owned(), text };
    if i < files.len() {
        files.set(i, file);
        assert(views(files@) =~= all.update(i as int, file@));
    } else {
        files.push(file);
    }
}

/// What came of the map of one topic.
#[derive(Debug)]
pub struct MocReport {
    pub topic: String,
    pub file_path: String,
    pub note_count: usize,
    pub hub_notes: Vec<String>,
    pub dry_run: bool,
    pub content: Option<String>,
}

/// What a `MocReport` says.
pub struct MocReportModel {
    pub topic: Seq<char>,
    pub file_path: Seq<char>,
    pub note_count: usize,
    pub hub_notes: Seq<Seq<char>>,
    pub dry_run: bool,
    pub content: Option<Seq<char>>,
}

impl View for MocReport {
    type V = MocReportModel;

    open spec fn view(&self) -> MocReportModel {
        MocReportModel {
            topic: self.topic@,
            file_path: self.file_path@,
            note_count: self.note_count,
            hub_notes: views(self.hub_notes@),
            dry_run: self.dry_run,
            content: opt_view(self.content),
        }
    }
}

/// What came of the living index.
#[derive(Debug)]
pub struct LivingWikiReport {
    pub index_path: String,
    pub orphans_path: String,
    pub topic_mocs: Vec<TopicMocInfo>,
    pub total_notes: usize,
    pub total_orphans: usize,
    pub dry_run: bool,
}

/// How a new map of a topic begins.
pub open spec fn moc_header(topic: Seq<char>) -> Seq<char> {
    "# "@ + moc_title(topic) + "\n\n> Automated Map of Content synthesized by AtlasWiki for `"@
        + topic + "`.\n> Edits outside synthesis markers are preserved.\n"@
}

/// The file of the map of a topic once it is written.
pub open spec fn moc_content(
    topic: Seq<char>,
    notes: Seq<SummaryModel>,
    docs: Seq<DocumentModel>,
    existing: Seq<char>,
) -> Seq<char> {
    updated(existing, topic_text(topic, notes, docs), Some(moc_header(topic)))
}

/// What came of the map of a topic.
pub open spec fn moc_report(
    topic: Seq<char>,
    notes: Seq<SummaryModel>,
    docs: Seq<DocumentModel>,
    existing: Seq<char>,
    dry_run: bool,
) -> MocReportModel {
    MocReportModel {
        topic,
        file_path: moc_file_name(topic),
        note_count: notes_of_topic(notes, topic_key(topic), false).len() as usize,
        hub_notes: hub_titles(topic_notes(topic, notes)),
        dry_run,
        content: if dry_run {
            Some(moc_content(topic, notes, docs, existing))
        } else {
            None
        },
    }
}

/// The maps of these topics, written one after the other, and the files then. A
/// dry run writes nothing.
pub open spec fn mocs_written(
    topics: Seq<Seq<char>>,
    notes: Seq<SummaryModel>,
    docs: Seq<DocumentModel>,
    files: Seq<(Seq<char>, Seq<char>)>,
    dry_run: bool,
) -> (Seq<MocReportModel>, Seq<(Seq<char>, Seq<char>)>)
    decreases topics.len(),
{
    if topics.len() == 0 {
        (Seq::empty(), files)
    } else {
        let (reports, before) = mocs_written(topics.drop_last(), notes, docs, files, dry_run);
        let topic = topics.last();
        let existing = file_text(before, moc_file_name(topic));
        (
            reports.push(moc_report(topic, notes, docs, existing, dry_run)),
            if dry_run {
                before
            } else {
                with_file(
                    before,
                    moc_file_name(topic),
                    moc_content(topic, notes, docs, existing),
                )
            },
        )
    }
}

/// The topics to write maps for: the one asked for, else all, else a general one.
pub open spec fn target_topics(topic: Option<Seq<char>>, notes: Seq<SummaryModel>) -> Seq<Seq<char>> {
    match topic {
        Some(t) => seq![t],
        None => if topics_of(notes).len() == 0 {
            seq!["General"@]
        } else {
            topics_of(notes)
        },
    }
}

/// A map as the index lists it.
pub open spec fn moc_info(r: MocReportModel) -> TopicModel {
    TopicModel {
        topic: r.topic,
        file_name: moc_file_name(r.topic),
        title: moc_title(r.topic),
        note_count: r.note_count,
        hub_notes: r.hub_notes,
    }
}

/// The notes whose titles are among these.
pub open spec fn notes_titled(notes: Seq<SummaryModel>, titles: Seq<Seq<char>>) -> Seq<SummaryModel>
    decreases notes.len(),
{
    if notes.len() == 0 {
        Seq::empty()
    } else {
        let before = notes_titled(notes.drop_last(), titles);
        if titles.contains(notes.last().title) {
            before.push(notes.last())
        } else {
            before
        }
    }
}

/// The isolated notes of a graph as an index tells of them.
pub open spec fn orphan_summaries(notes: Seq<SummaryModel>, g: GraphModel) -> Seq<SummaryModel> {
    notes_titled(
        notes,
        orphan_nodes(g, g.nodes.len() as int).map_values(|n: NoteModel| n.title),
    )
}

/// The file of the isolated notes once it is written.
pub open spec fn orphans_content(orphans: Seq<SummaryModel>, existing: Seq<char>) -> Seq<char> {
    updated(
        existing,
        orphans_text(orphans),
        Some(
            "# Orphan Notes Index\n\n> Catalog of notes with zero incoming and outgoing links.\n> Edits outside synthesis markers are preserved.\n"@,
        ),
    )
}

/// The file of the living index once it is written.
pub open spec fn index_content(
    notes: Seq<SummaryModel>,
    mocs: Seq<TopicModel>,
    orphans: nat,
    wanted: nat,
    existing: Seq<char>,
) -> Seq<char> {
    updated(
        existing,
        index_text(notes, mocs, orphans, wanted),
        Some(
            "# Vault Living Index\n\n> Automated living index synthesized by AtlasWiki.\n> Edits outside synthesis markers are preserved.\n"@,
        ),
    )
}

// ---------------------------------------------------------------------------
// The synthesizer
// ---------------------------------------------------------------------------

/// Writes maps of content and the living index of a vault.
#[derive(Debug)]
pub struct MocSynthesizer {
    pub vault_root: String,
}

impl MocSynthesizer {
    /// A synthesizer for the vault at this path.
    pub fn new(vault_root: &str) -> (r: Self)
        ensures
            r.vault_root@ == vault_root@,
    {
        MocSynthesizer { vault_root: vault_root.to_owned() }
    }

    /// What an index tells of these notes, in its order.
    pub fn extract_note_summaries(&self, docs: &Vec<ParsedDocument>, kg: &KnowledgeGraph) -> (r: Vec<
        NoteSummary,
    >)
        requires
            kg.wf(),
        ensures
            views(r@) == summaries_of(views(docs@), kg@),
    {
        broadcast use group_views;

        let ghost wanted = views(docs@).map_values(|d: DocumentModel| summary_of(d, kg@));
        let mut out: Vec<NoteSummary> = Vec::new();
        let mut i: usize = 0;
        while i < docs.len()
            invariant
                i <= docs@.len(),
                kg.wf(),
                wanted == views(docs@).map_values(|d: DocumentModel| summary_of(d, kg@)),
                views(out@) == wanted.take(i as int),
            decreases docs.len() - i,
        {
            let doc = &docs[i];
            let (in_degree, out_degree): (usize, usize) = match kg.degree(doc.title.as_str()) {
                Some(d) => d,
                None => (0, 0),
            };
            out.push(
                NoteSummary {
                    title: doc.title.clone(),
                    path: doc.path.clone(),
                    tags: tag_name_list(&doc.tags),
                    word_count: doc.word_count,
                    pagerank: kg.get_pagerank(doc.title.as_str()),
                    in_degree,
                    out_degree,
                },
            );
            let ghost made = out@.last()@;
            assert(made.tags == summary_of(doc@, kg@).tags);
            assert(made == summary_of(doc@, kg@));
            i += 1;
            assert(wanted.take(i as int) =~= wanted.take(i as int - 1).push(wanted[i as int - 1]));
        }
        assert(wanted.take(i as int) =~= wanted);
        sort_summaries(out)
    }

    /// The topics of these notes in alphabetical order.
    pub fn discover_topics(&self, notes: &Vec<NoteSummary>) -> (r: Vec<String>)
        ensures
            views(r@) == topics_of(views(notes@)),
    {
        broadcast use {group_views, split_on_nonempty};

        let ghost all = views(notes@);
        let mut found: Vec<String> = Vec::new();
        let mut i: usize = 0;
        while i < notes.len()
            invariant
                i <= notes@.len(),
                all == views(notes@),
                views(found@) == topics_met(all.take(i as int)),
            decreases notes.len() - i,
        {
            assert(all.take(i as int + 1).drop_last() =~= all.take(i as int));
            let note = &notes[i];
            assert(all[i as int] == note@);
            let ghost tags = note@.tags;
            let ghost start = views(found@);
            let mut k: usize = 0;
            assert(tags.take(0) =~= Seq::empty());
            while k < note.tags.len()
                invariant
                    k <= note.tags@.len(),
                    tags == note@.tags,
                    views(found@) == with_topics(start, tags.take(k as int)),
                decreases note.tags.len() - k,
            {
                assert(tags.take(k as int + 1).drop_last() =~= tags.take(k as int));
                assert(tags[k as int] == note.tags@[k as int]@);
                let trimmed = str_trim(note.tags[k].as_str());
                let clean = str_trim_start_char(trimmed.as_str(), '#');
                if !clean.as_str().is_empty() {
                    let parts = str_split(clean.as_str(), '/');
                    assert(views(parts@).len() > 0);
                    assert(views(parts@)[0] == parts@[0]@);
                    push_once(&mut found, parts[0].as_str());
                }
                k += 1;
            }
            assert(tags.take(k as int) =~= tags);
            i += 1;
        }
        assert(all.take(i as int) =~= all);
        let ghost lt = |a: String, b: String| text_lt(a@, b@);
        let ghost lt_view = |a: Seq<char>, b: Seq<char>| text_lt(a, b);
        proof {
            lemma_sorted_views(found@, lt, lt_view);
        }
        sort_by(found, string_less, Ghost(lt))
    }

    /// The map of a topic, and the titles of its most central notes.
    pub fn synthesize_topic_moc(
        &self,
        topic: &str,
        all_notes: &Vec<NoteSummary>,
        all_docs: &Vec<ParsedDocument>,
    ) -> (r: (String, Vec<String>))
        requires
            link_count(views(all_docs@)) <= usize::MAX,
        ensures
            r.0@ == topic_text(topic@, views(all_notes@), views(all_docs@)),
            views(r.1@) == hub_titles(topic_notes(topic@, views(all_notes@))),
    {
        broadcast use group_views;

        let key = topic_key_text(topic);
        let chosen = select_notes(all_notes, key.as_str(), true);
        let own = sort_summaries(chosen);
        let ghost notes = views(own@);
        let mut out = "## Topic Overview\n\n".to_owned();
        out.append("- **Topic**: `");
        out.append(topic);
        out.append("`\n");
        out.append("- **Total Notes**: ");
        push_decimal(&mut out, own.len());
        out.append("\n");
        out.append("- **Ordering**: Hub Centrality (PageRank descending)\n\n");
        let n: usize = if own.len() <= 5 {
            own.len()
        } else {
            5
        };
        let ghost wanted = notes.take(n as int).map_values(|s: SummaryModel| s.title);
        let mut hubs: Vec<String> = Vec::new();
        let mut i: usize = 0;
        while i < n
            invariant
                i <= n <= own@.len(),
                notes == views(own@),
                wanted == notes.take(n as int).map_values(|s: SummaryModel| s.title),
                views(hubs@) == wanted.take(i as int),
            decreases n - i,
        {
            assert(notes[i as int] == own@[i as int]@);
            hubs.push(own[i].title.clone());
            i += 1;
            assert(wanted.take(i as int) =~= wanted.take(i as int - 1).push(wanted[i as int - 1]));
        }
        assert(wanted.take(i as int) =~= wanted);
        if own.len() > 0 {
            out.append("### Key Hub Notes & Core Concepts\n\n");
            push_note_lines(&mut out, &own, "Hub Score: ", n);
            out.append("\n");
        }
        push_tree(&mut out, "### Taxonomy Breakdown\n\n", &own);
        out.append("### Note Index\n\n");
        if own.len() == 0 {
            out.append("_No notes currently categorized under this topic._\n\n");
        } else {
            push_short_lines(&mut out, &own);
            out.append("\n");
        }
        let ghost keys = title_keys(notes);
        let mut inside: Vec<String> = Vec::new();
        let mut k: usize = 0;
        while k < own.len()
            invariant
                k <= own@.len(),
                notes == views(own@),
                keys == title_keys(notes),
                views(inside@) == keys.take(k as int),
            decreases own.len() - k,
        {
            assert(notes[k as int] == own@[k as int]@);
            inside.push(to_lowercase(own[k].title.as_str()));
            k += 1;
            assert(keys.take(k as int) =~= keys.take(k as int - 1).push(keys[k as int - 1]));
        }
        assert(keys.take(k as int) =~= keys);
        let cs = count_connections(all_docs, &inside);
        push_outside(&mut out, cs);
        (out, hubs)
    }

    /// The living index.
    pub fn synthesize_living_index(
        &self,
        notes: &Vec<NoteSummary>,
        mocs: &Vec<TopicMocInfo>,
        orphans: &Vec<NoteSummary>,
        wanted: &Vec<(String, usize)>,
    ) -> (r: String)
        requires
            word_total(views(notes@)) <= usize::MAX,
        ensures
            r@ == index_text(views(notes@), views(mocs@), orphans@.len(), wanted@.len()),
    {
        broadcast use group_views;

        let ghost all = views(notes@);
        let mut words: usize = 0;
        let mut bare_notes: Vec<NoteSummary> = Vec::new();
        let mut i: usize = 0;
        while i < notes.len()
            invariant
                i <= notes@.len(),
                all == views(notes@),
                word_total(all) <= usize::MAX,
                words == word_total(all.take(i as int)),
                views(bare_notes@) == untagged_of(all.take(i as int)),
            decreases notes.len() - i,
        {
            assert(all.take(i as int + 1).drop_last() =~= all.take(i as int));
            assert(all[i as int] == notes@[i as int]@);
            proof {
                lemma_word_total(all, i as int + 1);
            }
            words = words + notes[i].word_count;
            if notes[i].tags.len() == 0 {
                bare_notes.push(notes[i].clone());
            }
            i += 1;
        }
        assert(all.take(i as int) =~= all);

        let mut out = "## Vault Overview\n\n".to_owned();
        out.append("- **Total Notes**: ");
        push_decimal(&mut out, notes.len());
        out.append("\n");
        out.append("- **Topic MOCs**: ");
        push_decimal(&mut out, mocs.len());
        out.append("\n");
        out.append("- **Total Words**: ");
        push_decimal(&mut out, words);
        out.append("\n");
        out.append("- **Orphan Notes**: ");
        push_decimal(&mut out, orphans.len());
        out.append(" ([[Orphans]])\n");
        out.append("- **Wanted Notes**: ");
        push_decimal(&mut out, wanted.len());
        out.append("\n\n");
        if mocs.len() > 0 {
            out.append("## Maps of Content (MOCs)\n\n");
            let ghost head = out@;
            let mut k: usize = 0;
            while k < mocs.len()
                invariant
                    k <= mocs@.len(),
                    out@ == moc_lines(head, views(mocs@), k as int),
                decreases mocs.len() - k,
            {
                assert(views(mocs@)[k as int] == mocs@[k as int]@);
                out.append("- [[");
                out.append(mocs[k].title.as_str());
                out.append("]] (");
                push_decimal(&mut out, mocs[k].note_count);
                out.append(" notes)\n");
                k += 1;
            }
            out.append("\n");
        }
        if notes.len() > 0 {
            out.append("## Key Vault Hubs (High Centrality)\n\n");
            let n: usize = if notes.len() <= 7 {
                notes.len()
            } else {
                7
            };
            push_note_lines(&mut out, notes, "PageRank: ", n);
            out.append("\n");
        }
        push_tree(&mut out, "## Vault Taxonomy\n\n", notes);
        let untagged = sort_summaries(bare_notes);
        if untagged.len() > 0 {
            out.append("## Untagged Notes\n\n");
            push_short_lines(&mut out, &untagged);
            out.append("\n");
        }
        out.append("## Vault Health\n\n");
        if orphans.len() == 0 {
            out.append(
                "- ✓ **Orphans**: Zero isolated notes detected. Vault graph is connected.\n",
            );
        } else {
            out.append("- ⚡ **Orphans**: [[Orphans]] (");
            push_decimal(&mut out, orphans.len());
            out.append(" notes need connections)\n");
        }
        if wanted.len() == 0 {
            out.append("- ✓ **Wanted Pages**: All wikilinks resolve to existing notes.\n");
        } else {
            out.append("- ⚡ **Wanted Pages**: ");
            push_decimal(&mut out, wanted.len());
            out.append(" unresolved references.\n");
        }
        out
    }

    /// The catalog of isolated notes.
    pub fn synthesize_orphans_index(&self, orphans: &Vec<NoteSummary>) -> (r: String)
        ensures
            r@ == orphans_text(views(orphans@)),
    {
        if orphans.len() == 0 {
            let mut out = "## Vault Connection Status: Healthy\n\n".to_owned();
            out.append(
                "✓ **Zero isolated orphan notes detected!** Every note in the vault has at least one incoming or outgoing wikilink.\n",
            );
            return out;
        }
        let mut out = "## Isolated Notes (".to_owned();
        push_decimal(&mut out, orphans.len());
        out.append(")\n\n");
        out.append(
            "The following notes have zero incoming and zero outgoing links in the knowledge graph:\n\n",
        );
        let ghost head = out@;
        let mut i: usize = 0;
        while i < orphans.len()
            invariant
                i <= orphans@.len(),
                out@ == orphan_lines(head, views(orphans@), i as int),
            decreases orphans.len() - i,
        {
            assert(views(orphans@)[i as int] == orphans@[i as int]@);
            out.append("- [[");
            out.append(orphans[i].title.as_str());
            out.append("]] (`");
            out.append(orphans[i].path.as_str());
            out.append("`) · Words: ");
            push_decimal(&mut out, orphans[i].word_count);
            out.append("\n");
            i += 1;
        }
        out.append("\n### Suggested Next Steps\n\n");
        out.append(
            "1. Connect these notes to relevant central hubs using `[[Note Title]]` wikilinks.\n",
        );
        out.append("2. Reference them in appropriate Maps of Content (MOCs).\n");
        out.append(
            "3. Add hierarchical tags (e.g. `#topic/subtopic`) so they integrate into the taxonomy tree.\n",
        );
        out
    }

    fn generate_moc_single(
        &self,
        topic: &str,
        notes: &Vec<NoteSummary>,
        docs: &Vec<ParsedDocument>,
        files: &mut Vec<NoteFile>,
        dry_run: bool,
    ) -> (r: MocReport)
        requires
            link_count(views(docs@)) <= usize::MAX,
        ensures
            ({
                let existing = file_text(views(old(files)@), moc_file_name(topic@));
                &&& r@ == moc_report(topic@, views(notes@), views(docs@), existing, dry_run)
                &&& views(final(files)@) == if dry_run {
                    views(old(files)@)
                } else {
                    with_file(
                        views(old(files)@),
                        moc_file_name(topic@),
                        moc_content(topic@, views(notes@), views(docs@), existing),
                    )
                }
            }),
    {
        let (title, file_name) = sanitize_topic_name(topic);
        let (body, hub_notes) = self.synthesize_topic_moc(topic, notes, docs);
        let mut header = "# ".to_owned();
        header.append(title.as_str());
        header.append("\n\n> Automated Map of Content synthesized by AtlasWiki for `");
        header.append(topic);
        header.append("`.\n> Edits outside synthesis markers are preserved.\n");
        let existing = read_file(files, file_name.as_str());
        let text = update_synthesis_content(
            existing.as_str(),
            body.as_str(),
            Some(header.as_str()),
        );
        let key = topic_key_text(topic);
        let note_count: usize = select_notes(notes, key.as_str(), false).len();
        let content = if dry_run {
            Some(text)
        } else {
            write_file(files, file_name.as_str(), text);
            None
        };
        MocReport {
            topic: topic.to_owned(),
            file_path: file_name,
            note_count,
            hub_notes,
            dry_run,
            content,
        }
    }

    fn generate_mocs(
        &self,
        topics: &Vec<String>,
        notes: &Vec<NoteSummary>,
        docs: &Vec<ParsedDocument>,
        files: &mut Vec<NoteFile>,
        dry_run: bool,
    ) -> (r: Vec<MocReport>)
        requires
            link_count(views(docs@)) <= usize::MAX,
        ensures
            (views(r@), views(final(files)@)) == mocs_written(
                views(topics@),
                views(notes@),
                views(docs@),
                views(old(files)@),
                dry_run,
            ),
    {
        broadcast use group_views;

        let ghost all = views(topics@);
        let ghost first = views(files@);
        let mut out: Vec<MocReport> = Vec::new();
        let mut i: usize = 0;
        assert(all.take(0) =~= Seq::empty());
        while i < topics.len()
            invariant
                i <= topics@.len(),
                all == views(topics@),
                link_count(views(docs@)) <= usize::MAX,
                (views(out@), views(files@)) == mocs_written(
                    all.take(i as int),
                    views(notes@),
                    views(docs@),
                    first,
                    dry_run,
                ),
            decreases topics.len() - i,
        {
            assert(all.take(i as int + 1).drop_last() =~= all.take(i as int));
            out.push(self.generate_moc_single(topics[i].as_str(), notes, docs, files, dry_run));
            i += 1;
        }
        assert(all.take(i as int) =~= all);
        out
    }

    /// Writes the map of one topic or of all topics into these files, and
    /// reports on each. A dry run leaves the files as they are and reports what
    /// it would have written.
    pub fn generate_moc(
        &self,
        topic: Option<&str>,
        docs: &Vec<ParsedDocument>,
        kg: &KnowledgeGraph,
        files: &mut Vec<NoteFile>,
        dry_run: bool,
    ) -> (r: Vec<MocReport>)
        requires
            kg.wf(),
            link_count(views(docs@)) <= usize::MAX,
        ensures
            (views(r@), views(final(files)@)) == mocs_written(
                target_topics(
                    match topic {
                        Some(t) => Some(t@),
                        None => None,
                    },
                    summaries_of(views(docs@), kg@),
                ),
                summaries_of(views(docs@), kg@),
                views(docs@),
                views(old(files)@),
                dry_run,
            ),
    {
        let notes = self.extract_note_summaries(docs, kg);
        let topics = self.topics_to_write(topic, &notes);
        self.generate_mocs(&topics, &notes, docs, files, dry_run)
    }

    /// The topics to write maps for.
    pub fn topics_to_write(&self, topic: Option<&str>, notes: &Vec<NoteSummary>) -> (r: Vec<String>)
        ensures
            views(r@) == target_topics(
                match topic {
                    Some(t) => Some(t@),
                    None => None,
                },
                views(notes@),
            ),
    {
        match topic {
            Some(t) => {
                let one: Vec<String> = vec![t.to_owned()];
                assert(views(one@) =~= seq![t@]);
                one
            },
            None => {
                let found = self.discover_topics(notes);
                assert(views(found@).len() == found@.len());
                if found.len() == 0 {
                    let one: Vec<String> = vec!["General".to_owned()];
                    assert(views(one@) =~= seq!["General"@]);
                    one
                } else {
                    found
                }
            },
        }
    }

    /// Writes the living index, the catalog of isolated notes and the maps of all
    /// topics into these files. A dry run leaves the files as they are.
    pub fn generate_living_index(
        &self,
        docs: &Vec<ParsedDocument>,
        kg: &KnowledgeGraph,
        files: &mut Vec<NoteFile>,
        dry_run: bool,
    ) -> (r: LivingWikiReport)
        requires
            kg.wf(),
            link_count(views(docs@)) <= usize::MAX,
            word_total(summaries_of(views(docs@), kg@)) <= usize::MAX,
        ensures
            ({
                let notes = summaries_of(views(docs@), kg@);
                let (reports, mapped) = mocs_written(
                    topics_of(notes),
                    notes,
                    views(docs@),
                    views(old(files)@),
                    dry_run,
                );
                let infos = reports.map_values(|m: MocReportModel| moc_info(m));
                let orphans = orphan_summaries(notes, kg@);
                let wanted = dangling_nodes(kg@, kg@.nodes.len() as int).len();
                &&& r.index_path@ == "Index.md"@
                &&& r.orphans_path@ == "Orphans.md"@
                &&& views(r.topic_mocs@) == infos
                &&& r.total_notes == notes.len()
                &&& r.total_orphans == orphans.len()
                &&& r.dry_run == dry_run
                &&& views(final(files)@) == if dry_run {
                    mapped
                } else {
                    let with_orphans = with_file(
                        mapped,
                        "Orphans.md"@,
                        orphans_content(orphans, file_text(mapped, "Orphans.md"@)),
                    );
                    with_file(
                        with_orphans,
                        "Index.md"@,
                        index_content(
                            notes,
                            infos,
                            orphans.len(),
                            wanted,
                            file_text(with_orphans, "Index.md"@),
                        ),
                    )
                }
            }),
    {
        broadcast use group_views;

        let notes = self.extract_note_summaries(docs, kg);
        let topics = self.discover_topics(&notes);
        let reports = self.generate_mocs(&topics, &notes, docs, files, dry_run);
        let ghost mapped = views(files@);
        let ghost infos = views(reports@).map_values(|m: MocReportModel| moc_info(m));
        let mut topic_mocs: Vec<TopicMocInfo> = Vec::new();
        let mut i: usize = 0;
        while i < reports.len()
            invariant
                i <= reports@.len(),
                infos == views(reports@).map_values(|m: MocReportModel| moc_info(m)),
                views(topic_mocs@) == infos.take(i as int),
            decreases reports.len() - i,
        {
            assert(views(reports@)[i as int] == reports@[i as int]@);
            let (title, file_name) = sanitize_topic_name(reports[i].topic.as_str());
            topic_mocs.push(
                TopicMocInfo {
                    topic: reports[i].topic.clone(),
                    file_name,
                    title,
                    note_count: reports[i].note_count,
                    hub_notes: clone_strings(&reports[i].hub_notes),
                },
            );
            i += 1;
            assert(infos.take(i as int) =~= infos.take(i as int - 1).push(infos[i as int - 1]));
        }
        assert(infos.take(i as int) =~= infos);
        let orphans = self.find_orphans(&notes, kg);
        let wanted = kg.get_wanted_pages();
        proof {
            let lt = |a: (Seq<char>, usize), b: (Seq<char>, usize)| more_references(a, b);
            crate::sorting::sorted_keeps_items(
                dangling_nodes(kg@, kg@.nodes.len() as int),
                lt,
            );
            assert(views(wanted@).len() == wanted@.len());
            assert(views(notes@).len() == notes@.len());
            assert(views(orphans@).len() == orphans@.len());
        }
        if !dry_run {
            let orphans_body = self.synthesize_orphans_index(&orphans);
            let existing_orphans = read_file(files, "Orphans.md");
            let orphans_text = update_synthesis_content(
                existing_orphans.as_str(),
                orphans_body.as_str(),
                Some(
                    "# Orphan Notes Index\n\n> Catalog of notes with zero incoming and outgoing links.\n> Edits outside synthesis markers are preserved.\n",
                ),
            );
            write_file(files, "Orphans.md", orphans_text);
            let index_body = self.synthesize_living_index(&notes, &topic_mocs, &orphans, &wanted);
            let existing_index = read_file(files, "Index.md");
            let index_text = update_synthesis_content(
                existing_index.as_str(),
                index_body.as_str(),
                Some(
                    "# Vault Living Index\n\n> Automated living index synthesized by AtlasWiki.\n> Edits outside synthesis markers are preserved.\n",
                ),
            );
            write_file(files, "Index.md", index_text);
        }
        LivingWikiReport {
            index_path: "Index.md".to_owned(),
            orphans_path: "Orphans.md".to_owned(),
            topic_mocs,
            total_notes: notes.len(),
            total_orphans: orphans.len(),
            dry_run,
        }
    }

    fn find_orphans(&self, notes: &Vec<NoteSummary>, kg: &KnowledgeGraph) -> (r: Vec<NoteSummary>)
        requires
            kg.wf(),
        ensures
            views(r@) == orphan_summaries(views(notes@), kg@),
    {
        broadcast use group_views;

        let nodes = kg.get_orphans();
        let ghost wanted = views(nodes@).map_values(|n: NoteModel| n.title);
        let mut titles: Vec<String> = Vec::new();
        let mut k: usize = 0;
        while k < nodes.len()
            invariant
                k <= nodes@.len(),
                wanted == views(nodes@).map_values(|n: NoteModel| n.title),
                views(titles@) == wanted.take(k as int),
            decreases nodes.len() - k,
        {
            titles.push(nodes[k].title.clone());
            k += 1;
            assert(wanted.take(k as int) =~= wanted.take(k as int - 1).push(wanted[k as int - 1]));
        }
        assert(wanted.take(k as int) =~= wanted);
        let ghost all = views(notes@);
        let mut out: Vec<NoteSummary> = Vec::new();
        let mut i: usize = 0;
        while i < notes.len()
            invariant
                i <= notes@.len(),
                all == views(notes@),
                views(titles@) == wanted,
                views(out@) == notes_titled(all.take(i as int), wanted),
            decreases notes.len() - i,
        {
            assert(all.take(i as int + 1).drop_last() =~= all.take(i as int));
            assert(all[i as int] == notes@[i as int]@);
            if holds_str(&titles, notes[i].title.as_str()) {
                out.push(notes[i].clone());
            }
            i += 1;
        }
        assert(all.take(i as int) =~= all);
        out
    }
}

proof fn lemma_word_total(notes: Seq<SummaryModel>, n: int)
    requires
        1 <= n <= notes.len(),
    ensures
        word_total(notes.take(n)) <= word_total(notes),
        word_total(notes.take(n)) == word_total(notes.take(n - 1)) + notes[n - 1].word_count,
    decreases notes.len() - n,
{
    assert(notes.take(n).drop_last() =~= notes.take(n - 1));
    if n == notes.len() {
        assert(notes.take(n) =~= notes);
    } else {
        lemma_word_total(notes, n + 1);
    }
}

// ---------------------------------------------------------------------------
// What holds of maps and indexes
// ---------------------------------------------------------------------------

/// Whether the first level of one of the tags is this topic.
pub open spec fn tops(tags: Seq<Seq<char>>, topic: Seq<char>) -> bool {
    exists|k: int|
        0 <= k < tags.len() && plain_tag(#[trigger] tags[k]).len() > 0 && split_on(
            plain_tag(tags[k]),
            '/',
        )[0] == topic
}

proof fn lemma_with_topics(found: Seq<Seq<char>>, tags: Seq<Seq<char>>)
    requires
        found.no_duplicates(),
    ensures
        with_topics(found, tags).no_duplicates(),
        forall|t: Seq<char>| #[trigger]
            with_topics(found, tags).contains(t) <==> found.contains(t) || tops(tags, t),
    decreases tags.len(),
{
    if tags.len() > 0 {
        let rest = tags.drop_last();
        let before = with_topics(found, rest);
        let r = with_topics(found, tags);
        lemma_with_topics(found, rest);
        assert forall|t: Seq<char>| #[trigger] r.contains(t) <==> found.contains(t) || tops(tags, t) by {
            if tops(rest, t) {
                let k = choose|k: int|
                    0 <= k < rest.len() && plain_tag(#[trigger] rest[k]).len() > 0 && split_on(
                        plain_tag(rest[k]),
                        '/',
                    )[0] == t;
                assert(tags[k] == rest[k]);
            }
            if tops(tags, t) && !tops(rest, t) {
                let k = choose|k: int|
                    0 <= k < tags.len() && plain_tag(#[trigger] tags[k]).len() > 0 && split_on(
                        plain_tag(tags[k]),
                        '/',
                    )[0] == t;
                if k < rest.len() {
                    assert(rest[k] == tags[k]);
                }
            }
            assert(tags[tags.len() - 1] == tags.last());
            if before.contains(t) {
                let k = choose|k: int| 0 <= k < before.len() && before[k] == t;
                assert(r[k] == t);
            }
            if r.contains(t) && !before.contains(t) {
                let k = choose|k: int| 0 <= k < r.len() && r[k] == t;
                if k < before.len() {
                    assert(before[k] == t);
                }
            }
            if r.len() > before.len() {
                assert(r[before.len() as int] == top_segment(tags.last()));
            }
        }
    }
}

proof fn lemma_topics_met(notes: Seq<SummaryModel>)
    ensures
        topics_met(notes).no_duplicates(),
        forall|t: Seq<char>| #[trigger]
            topics_met(notes).contains(t) <==> exists|i: int|
                0 <= i < notes.len() && tops((#[trigger] notes[i]).tags, t),
    decreases notes.len(),
{
    if notes.len() > 0 {
        let rest = notes.drop_last();
        lemma_topics_met(rest);
        lemma_with_topics(topics_met(rest), notes.last().tags);
        assert forall|t: Seq<char>| #[trigger] topics_met(notes).contains(t) <==> exists|i: int|
            0 <= i < notes.len() && tops((#[trigger] notes[i]).tags, t) by {
            if topics_met(rest).contains(t) {
                let i = choose|i: int| 0 <= i < rest.len() && tops((#[trigger] rest[i]).tags, t);
                assert(notes[i] == rest[i]);
            }
            assert(notes[notes.len() - 1] == notes.last());
            if exists|i: int| 0 <= i < notes.len() && tops((#[trigger] notes[i]).tags, t) {
                let i = choose|i: int| 0 <= i < notes.len() && tops((#[trigger] notes[i]).tags, t);
                if i < rest.len() {
                    assert(rest[i] == notes[i]);
                }
            }
        }
    }
}

/// The topics of notes are the first levels of their tags, each once and in the order of
/// the alphabet.
pub proof fn topics_are_the_first_levels(notes: Seq<SummaryModel>)
    ensures
        forall|t: Seq<char>| #[trigger]
            topics_of(notes).contains(t) <==> exists|i: int|
                0 <= i < notes.len() && tops((#[trigger] notes[i]).tags, t),
        forall|i: int, j: int|
            0 <= i < j < topics_of(notes).len() ==> text_lt(
                #[trigger] topics_of(notes)[i],
                #[trigger] topics_of(notes)[j],
            ),
{
    let lt = |a: Seq<char>, b: Seq<char>| text_lt(a, b);
    let all = topics_met(notes);
    let r = topics_of(notes);
    lemma_topics_met(notes);
    assert(is_weak_order(lt)) by {
        assert forall|a: Seq<char>| !#[trigger] lt(a, a) by {
            texts_are_ordered(a, a, a);
        }
        assert forall|a: Seq<char>, b: Seq<char>, c: Seq<char>| #[trigger] lt(a, b) && #[trigger] lt(
            b,
            c,
        ) implies lt(a, c) by {
            texts_are_ordered(a, b, c);
        }
        assert forall|a: Seq<char>, b: Seq<char>, c: Seq<char>| !#[trigger] lt(a, b)
            && !#[trigger] lt(b, c) implies !lt(a, c) by {
            texts_are_ordered(a, b, c);
            texts_are_ordered(c, b, a);
            texts_are_ordered(a, c, b);
            texts_are_ordered(b, c, a);
        }
    }
    sorted_is_in_order(all, lt);
    sorted_differ(all, lt);
    lemma_sorted_members(all, lt);
    assert forall|t: Seq<char>| #[trigger] r.contains(t) <==> all.contains(t) by {
        if r.contains(t) {
            let k = choose|k: int| 0 <= k < r.len() && r[k] == t;
            assert(all.contains(r[k]));
        }
        if all.contains(t) {
            let k = choose|k: int| 0 <= k < all.len() && all[k] == t;
            assert(r.contains(all[k]));
        }
    }
    assert forall|i: int, j: int| 0 <= i < j < r.len() implies text_lt(
        #[trigger] r[i],
        #[trigger] r[j],
    ) by {
        assert(!lt(r[j], r[i]));
        assert(r[i] != r[j]);
        texts_are_ordered(r[i], r[j], r[i]);
    }
}

/// Whether a note belongs to a topic: one of its tags is the topic or lies below it, or,
/// where any level counts, has it as one of its levels; or its title holds it. Hashes
/// before a tag, white space around it and case do not count.
pub open spec fn is_about(note: SummaryModel, key: Seq<char>, any_level: bool) -> bool {
    ||| exists|k: int| 0 <= k < note.tags.len() && tag_is_about(#[trigger] note.tags[k], key, any_level)
    ||| contains_str(lowercase(note.title), key)
}

/// Whether a tag is about a topic.
pub open spec fn tag_is_about(tag: Seq<char>, key: Seq<char>, any_level: bool) -> bool {
    let t = lowercase(trim_start_char(trim(tag), '#'));
    ||| t == key
    ||| t.len() > key.len() && t.take(key.len() as int) == key && t[key.len() as int] == '/'
    ||| any_level && split_on(t, '/').contains(key)
}

/// The two ways to say that a tag is about a topic say the same.
pub proof fn lemma_tag_is_about(tag: Seq<char>, key: Seq<char>, any_level: bool)
    ensures
        tag_is_about(tag, key, any_level) == (if any_level {
            tag_touches(tag, key)
        } else {
            tag_under(tag, key)
        }),
{
    let t = topic_key(tag);
    reveal_strlit("/");
    let below = key + "/"@;
    if t.len() > key.len() && t.take(key.len() as int) == key && t[key.len() as int] == '/' {
        assert(t.take(below.len() as int) =~= below) by {
            assert forall|i: int| 0 <= i < key.len() implies t[i] == key[i] by {
                assert(t.take(key.len() as int)[i] == key[i]);
            }
        }
        assert(below.is_prefix_of(t));
    }
    if below.is_prefix_of(t) {
        assert(t.take(below.len() as int)[key.len() as int] == '/');
        assert(t.take(key.len() as int) =~= key) by {
            assert forall|i: int| 0 <= i < key.len() implies t[i] == key[i] by {
                assert(t.take(below.len() as int)[i] == below[i]);
            }
        }
    }
}

/// The notes of a topic are those of the notes that belong to it, in their order.
pub proof fn topic_takes_its_notes(notes: Seq<SummaryModel>, key: Seq<char>, any_level: bool)
    ensures
        notes_of_topic(notes, key, any_level) == notes.filter(
            |n: SummaryModel| is_about(n, key, any_level),
        ),
    decreases notes.len(),
{
    reveal(Seq::filter);
    if notes.len() > 0 {
        topic_takes_its_notes(notes.drop_last(), key, any_level);
        let note = notes.last();
        assert forall|k: int| 0 <= k < note.tags.len() implies tag_is_about(
            #[trigger] note.tags[k],
            key,
            any_level,
        ) == (if any_level {
            tag_touches(note.tags[k], key)
        } else {
            tag_under(note.tags[k], key)
        }) by {
            lemma_tag_is_about(note.tags[k], key, any_level);
        }
        if note_matches(note, key, any_level) && !contains_str(lowercase(note.title), key) {
            let k = choose|k: int|
                0 <= k < note.tags.len() && (if any_level {
                    tag_touches(#[trigger] note.tags[k], key)
                } else {
                    tag_under(note.tags[k], key)
                });
            assert(tag_is_about(note.tags[k], key, any_level));
        }
        if is_about(note, key, any_level) && !contains_str(lowercase(note.title), key) {
            let k = choose|k: int|
                0 <= k < note.tags.len() && tag_is_about(#[trigger] note.tags[k], key, any_level);
            assert(if any_level {
                tag_touches(note.tags[k], key)
            } else {
                tag_under(note.tags[k], key)
            });
        }
        assert(note_matches(note, key, any_level) == is_about(note, key, any_level));
    } else {
        assert(notes_of_topic(notes, key, any_level) =~= notes);
    }
}

/// The notes without tags are those of the notes that have none, in their order.
pub proof fn untagged_notes_have_no_tags(notes: Seq<SummaryModel>)
    ensures
        untagged_of(notes) == notes.filter(|n: SummaryModel| n.tags.len() == 0),
    decreases notes.len(),
{
    reveal(Seq::filter);
    if notes.len() > 0 {
        untagged_notes_have_no_tags(notes.drop_last());
    } else {
        assert(untagged_of(notes) =~= notes);
    }
}

/// How often a target is named.
pub open spec fn references_to(cs: Seq<(Seq<char>, usize)>, target: Seq<char>) -> nat
    decreases cs.len(),
{
    if cs.len() == 0 {
        0
    } else {
        references_to(cs.drop_last(), target) + (if cs.last().0 == target {
            cs.last().1 as nat
        } else {
            0
        })
    }
}

/// How many of the links of notes inside lead to a target outside.
pub open spec fn links_out(docs: Seq<DocumentModel>, inside: Seq<Seq<char>>, target: Seq<char>) -> nat
    decreases docs.len(),
{
    if docs.len() == 0 {
        0
    } else {
        links_out(docs.drop_last(), inside, target) + (if inside.contains(
            lowercase(docs.last().title),
        ) {
            docs.last().links.filter(|l: LinkModel| leaves_to(l, inside, target)).len()
        } else {
            0
        })
    }
}

/// Whether a link leads to this target and the target is none of the notes inside, case
/// aside, nor empty.
pub open spec fn leaves_to(l: LinkModel, inside: Seq<Seq<char>>, target: Seq<char>) -> bool {
    l.target_note == target && lowercase(target).len() > 0 && !inside.contains(lowercase(target))
}

spec fn targets_differ(cs: Seq<(Seq<char>, usize)>) -> bool {
    forall|i: int, j: int| 0 <= i < j < cs.len() ==> (#[trigger] cs[i]).0 != (#[trigger] cs[j]).0
}

proof fn lemma_connection_found(cs: Seq<(Seq<char>, usize)>, target: Seq<char>, i: int)
    requires
        0 <= i <= cs.len(),
    ensures
        i <= connection_index(cs, target, i) <= cs.len(),
        connection_index(cs, target, i) < cs.len() ==> cs[connection_index(cs, target, i)].0
            == target,
        forall|j: int| i <= j < connection_index(cs, target, i) ==> (#[trigger] cs[j]).0 != target,
    decreases cs.len() - i,
{
    if i < cs.len() && cs[i].0 != target {
        lemma_connection_found(cs, target, i + 1);
    }
}

proof fn lemma_references_update(cs: Seq<(Seq<char>, usize)>, i: int, target: Seq<char>, t: Seq<char>)
    requires
        0 <= i < cs.len(),
        cs[i].0 == target,
        cs[i].1 < usize::MAX,
    ensures
        references_to(cs.update(i, (target, (cs[i].1 + 1) as usize)), t) == references_to(cs, t) + (
        if t == target {
            1int
        } else {
            0
        }),
    decreases cs.len(),
{
    let r = cs.update(i, (target, (cs[i].1 + 1) as usize));
    if i < cs.len() - 1 {
        lemma_references_update(cs.drop_last(), i, target, t);
        assert(r.drop_last() =~= cs.drop_last().update(i, (target, (cs[i].1 + 1) as usize)));
    } else {
        assert(r.drop_last() =~= cs.drop_last());
    }
}

proof fn lemma_with_connection_counts(
    cs: Seq<(Seq<char>, usize)>,
    target: Seq<char>,
    t: Seq<char>,
)
    requires
        targets_differ(cs),
        counts_bounded(cs, usize::MAX - 1),
    ensures
        targets_differ(with_connection(cs, target)),
        references_to(with_connection(cs, target), t) == references_to(cs, t) + (if t == target {
            1int
        } else {
            0
        }),
{
    lemma_connection_found(cs, target, 0);
    let i = connection_index(cs, target, 0);
    let r = with_connection(cs, target);
    if i < cs.len() {
        assert(cs[i].1 <= usize::MAX - 1);
        lemma_references_update(cs, i, target, t);
    } else {
        assert(r.drop_last() =~= cs);
    }
}

proof fn lemma_with_connections_counts(
    cs: Seq<(Seq<char>, usize)>,
    inside: Seq<Seq<char>>,
    links: Seq<LinkModel>,
    t: Seq<char>,
    n: int,
)
    requires
        targets_differ(cs),
        counts_bounded(cs, n),
        0 <= n,
        n + links.len() < usize::MAX,
    ensures
        targets_differ(with_connections(cs, inside, links)),
        counts_bounded(with_connections(cs, inside, links), n + links.len()),
        references_to(with_connections(cs, inside, links), t) == references_to(cs, t)
            + links.filter(|l: LinkModel| leaves_to(l, inside, t)).len(),
    decreases links.len(),
{
    reveal(Seq::filter);
    if links.len() > 0 {
        let rest = links.drop_last();
        lemma_with_connections_counts(cs, inside, rest, t, n);
        let before = with_connections(cs, inside, rest);
        lemma_with_connection_counts(before, links.last().target_note, t);
        lemma_connection_bounded(before, links.last().target_note, n + rest.len());
    }
}

/// The connections of a topic count how often its notes refer to each target outside it.
pub proof fn connections_count_the_links_out(
    docs: Seq<DocumentModel>,
    inside: Seq<Seq<char>>,
    target: Seq<char>,
)
    requires
        link_count(docs) < usize::MAX,
    ensures
        references_to(connections_of(docs, inside), target) == links_out(docs, inside, target),
        forall|i: int, j: int|
            0 <= i < j < connections_of(docs, inside).len() ==> (#[trigger] connections_of(
                docs,
                inside,
            )[i]).0 != (#[trigger] connections_of(docs, inside)[j]).0,
{
    lemma_connections_count(docs, inside, target);
}

proof fn lemma_connections_count(
    docs: Seq<DocumentModel>,
    inside: Seq<Seq<char>>,
    target: Seq<char>,
)
    requires
        link_count(docs) < usize::MAX,
    ensures
        references_to(connections_of(docs, inside), target) == links_out(docs, inside, target),
        targets_differ(connections_of(docs, inside)),
        counts_bounded(connections_of(docs, inside), link_count(docs) as int),
    decreases docs.len(),
{
    if docs.len() > 0 {
        let rest = docs.drop_last();
        lemma_connections_count(rest, inside, target);
        let before = connections_of(rest, inside);
        if inside.contains(lowercase(docs.last().title)) {
            lemma_with_connections_counts(
                before,
                inside,
                docs.last().links,
                target,
                link_count(rest) as int,
            );
        }
    }
}

/// The connections come strongest first, and by name where they are as strong.
pub proof fn connections_come_strongest_first(cs: Seq<(Seq<char>, usize)>)
    ensures
        ({
            let r = sorted_by(
                cs,
                |a: (Seq<char>, usize), b: (Seq<char>, usize)| stronger(a, b),
            );
            &&& r.to_multiset() == cs.to_multiset()
            &&& forall|i: int, j: int|
                0 <= i < j < r.len() ==> {
                    &&& (#[trigger] r[i]).1 >= (#[trigger] r[j]).1
                    &&& r[i].1 == r[j].1 ==> !text_lt(r[j].0, r[i].0)
                }
        }),
{
    let lt = |a: (Seq<char>, usize), b: (Seq<char>, usize)| stronger(a, b);
    let r = sorted_by(cs, lt);
    assert(is_weak_order(lt)) by {
        assert forall|a: (Seq<char>, usize)| !#[trigger] lt(a, a) by {
            texts_are_ordered(a.0, a.0, a.0);
        }
        assert forall|a: (Seq<char>, usize), b: (Seq<char>, usize), c: (Seq<char>, usize)| #[trigger]
            lt(a, b) && #[trigger] lt(b, c) implies lt(a, c) by {
            texts_are_ordered(a.0, b.0, c.0);
        }
        assert forall|a: (Seq<char>, usize), b: (Seq<char>, usize), c: (Seq<char>, usize)|
            !#[trigger] lt(a, b) && !#[trigger] lt(b, c) implies !lt(a, c) by {
            texts_are_ordered(a.0, b.0, c.0);
            texts_are_ordered(c.0, b.0, a.0);
            texts_are_ordered(a.0, c.0, b.0);
            texts_are_ordered(b.0, c.0, a.0);
        }
    }
    sorted_is_in_order(cs, lt);
    sorted_keeps_items(cs, lt);
    assert forall|i: int, j: int| 0 <= i < j < r.len() implies {
        &&& (#[trigger] r[i]).1 >= (#[trigger] r[j]).1
        &&& r[i].1 == r[j].1 ==> !text_lt(r[j].0, r[i].0)
    } by {
        assert(!lt(r[j], r[i]));
    }
}

/// A file name holds no slash of either kind and no colon: each stands as ` - `, and
/// every other character is kept.
pub proof fn file_names_hold_no_separators(a: Seq<char>, b: Seq<char>, c: char)
    ensures
        !file_safe(a).contains('/') && !file_safe(a).contains('\\') && !file_safe(a).contains(':'),
        file_safe(a + b) == file_safe(a) + file_safe(b),
        c == '/' || c == '\\' || c == ':' ==> file_safe(seq![c]) == seq![' ', '-', ' '],
        c != '/' && c != '\\' && c != ':' ==> file_safe(seq![c]) == seq![c],
    decreases b.len(),
{
    reveal_strlit(" - ");
    assert(file_safe(seq![c].drop_last()).len() == 0);
    assert(file_safe(seq![c]) =~= if c == '/' || c == '\\' || c == ':' {
        seq![' ', '-', ' ']
    } else {
        seq![c]
    });
    lemma_file_safe(a);
    if b.len() == 0 {
        assert(a + b =~= a);
        assert(file_safe(a) + file_safe(b) =~= file_safe(a));
    } else {
        file_names_hold_no_separators(a, b.drop_last(), c);
        assert((a + b).drop_last() =~= a + b.drop_last());
        assert(file_safe(a + b) =~= file_safe(a) + file_safe(b));
    }
}

proof fn lemma_file_safe(s: Seq<char>)
    ensures
        forall|i: int|
            0 <= i < file_safe(s).len() ==> #[trigger] file_safe(s)[i] != '/' && file_safe(s)[i]
                != '\\' && file_safe(s)[i] != ':',
    decreases s.len(),
{
    reveal_strlit(" - ");
    if s.len() > 0 {
        lemma_file_safe(s.drop_last());
        let before = file_safe(s.drop_last());
        let r = file_safe(s);
        assert forall|i: int| 0 <= i < r.len() implies #[trigger] r[i] != '/' && r[i] != '\\' && r[i]
            != ':' by {
            if i < before.len() {
                assert(r[i] == before[i]);
            }
        }
    }
}

/// The lines of an index: behind what was there, one for each note, in their order.
pub proof fn each_note_has_its_line(out: Seq<char>, notes: Seq<SummaryModel>, n: int, k: int)
    requires
        0 <= k < n <= notes.len(),
    ensures
        out.is_prefix_of(short_lines(out, notes, n)),
        contains_str(
            short_lines(out, notes, n),
            "- [["@ + notes[k].title + "]] · Hub: "@ + notes[k].pagerank.short + "\n"@,
        ),
        contains_str(
            orphan_lines(out, notes, n),
            "- [["@ + notes[k].title + "]] (`"@ + notes[k].path + "`) · Words: "@ + decimal(
                notes[k].word_count as nat,
            ) + "\n"@,
        ),
    decreases n,
{
    let r = short_lines(out, notes, n);
    let before = short_lines(out, notes, n - 1);
    let o = orphan_lines(out, notes, n);
    let o0 = orphan_lines(out, notes, n - 1);
    let line = "- [["@ + notes[n - 1].title + "]] · Hub: "@ + notes[n - 1].pagerank.short + "\n"@;
    let oline = "- [["@ + notes[n - 1].title + "]] (`"@ + notes[n - 1].path + "`) · Words: "@
        + decimal(notes[n - 1].word_count as nat) + "\n"@;
    assert(r =~= before + line);
    assert(o =~= o0 + oline);
    if k == n - 1 {
        lemma_stands_behind(before, line);
        lemma_stands_behind(o0, oline);
        lemma_short_lines_grow(out, notes, n);
    } else {
        each_note_has_its_line(out, notes, n - 1, k);
        lemma_still_stands(
            before,
            line,
            "- [["@ + notes[k].title + "]] · Hub: "@ + notes[k].pagerank.short + "\n"@,
        );
        lemma_still_stands(
            o0,
            oline,
            "- [["@ + notes[k].title + "]] (`"@ + notes[k].path + "`) · Words: "@ + decimal(
                notes[k].word_count as nat,
            ) + "\n"@,
        );
        assert(out =~= r.take(out.len() as int)) by {
            assert(before.take(out.len() as int) =~= out);
        }
    }
}

proof fn lemma_short_lines_grow(out: Seq<char>, notes: Seq<SummaryModel>, n: int)
    requires
        0 <= n <= notes.len(),
    ensures
        out.is_prefix_of(short_lines(out, notes, n)),
    decreases n,
{
    if n > 0 {
        lemma_short_lines_grow(out, notes, n - 1);
        let before = short_lines(out, notes, n - 1);
        let r = short_lines(out, notes, n);
        assert(before.take(out.len() as int) =~= out);
        assert(out =~= r.take(out.len() as int));
    } else {
        assert(out =~= out.take(out.len() as int));
    }
}

proof fn lemma_stands_behind(a: Seq<char>, line: Seq<char>)
    ensures
        contains_str(a + line, line),
{
    assert((a + line).subrange(a.len() as int, (a.len() + line.len()) as int) =~= line);
    assert(occurs_at(a + line, line, a.len() as int));
}

proof fn lemma_still_stands(a: Seq<char>, more: Seq<char>, line: Seq<char>)
    requires
        contains_str(a, line),
    ensures
        contains_str(a + more, line),
{
    let i = choose|i: int| occurs_at(a, line, i);
    assert((a + more).subrange(i, i + line.len()) =~= a.subrange(i, i + line.len()));
    assert(occurs_at(a + more, line, i));
}

/// A note is summed up by its own title, path, tags and words, and by the rank and the
/// links of the node with its title; it has none of these where there is no such node.
pub proof fn summary_tells_the_note(doc: DocumentModel, g: GraphModel)
    ensures
        summary_of(doc, g).title == doc.title,
        summary_of(doc, g).path == doc.path,
        summary_of(doc, g).tags.len() == doc.tags.len(),
        forall|i: int|
            0 <= i < doc.tags.len() ==> #[trigger] summary_of(doc, g).tags[i] == doc.tags[i].name,
        summary_of(doc, g).word_count == doc.word_count as usize,
        !g.by_title.contains_key(lowercase(doc.title)) ==> summary_of(doc, g).in_degree == 0
            && summary_of(doc, g).out_degree == 0 && summary_of(doc, g).pagerank.key == 0,
        g.by_title.contains_key(lowercase(doc.title)) ==> ({
            let n = g.by_title[lowercase(doc.title)] as int;
            &&& summary_of(doc, g).pagerank == g.nodes[n].pagerank
            &&& summary_of(doc, g).in_degree == crate::wiring::ins(g.ends, n).len() as usize
            &&& summary_of(doc, g).out_degree == crate::wiring::outs(g.ends, n).len() as usize
        }),
{
}

/// The isolated notes that an index tells of are the notes whose title an isolated node
/// has, in their order.
pub proof fn isolated_notes_are_told(notes: Seq<SummaryModel>, titles: Seq<Seq<char>>)
    ensures
        notes_titled(notes, titles) == notes.filter(|n: SummaryModel| titles.contains(n.title)),
    decreases notes.len(),
{
    reveal(Seq::filter);
    if notes.len() > 0 {
        isolated_notes_are_told(notes.drop_last(), titles);
    } else {
        assert(notes_titled(notes, titles) =~= notes);
    }
}

proof fn lemma_file_found(files: Seq<(Seq<char>, Seq<char>)>, name: Seq<char>, i: int)
    requires
        0 <= i <= files.len(),
    ensures
        i <= file_index(files, name, i) <= files.len(),
        file_index(files, name, i) < files.len() ==> files[file_index(files, name, i)].0 == name,
        forall|j: int| i <= j < file_index(files, name, i) ==> (#[trigger] files[j]).0 != name,
    decreases files.len() - i,
{
    if i < files.len() && files[i].0 != name {
        lemma_file_found(files, name, i + 1);
    }
}

/// What was written to a file is read from it, and every other file is as it was.
pub proof fn written_file_reads_back(
    files: Seq<(Seq<char>, Seq<char>)>,
    name: Seq<char>,
    text: Seq<char>,
    other: Seq<char>,
)
    ensures
        file_text(with_file(files, name, text), name) == text,
        other != name ==> file_text(with_file(files, name, text), other) == file_text(files, other),
{
    let r = with_file(files, name, text);
    lemma_file_found(files, name, 0);
    lemma_file_found(r, name, 0);
    lemma_file_found(files, other, 0);
    lemma_file_found(r, other, 0);
    let i = file_index(files, name, 0);
    let (k, q) = (file_index(files, other, 0), file_index(r, other, 0));
    assert(r[i] == (name, text));
    assert(file_index(r, name, 0) == i) by {
        let j = file_index(r, name, 0);
        if j < i {
            assert(r[j] == files[j]);
        }
    }
    if other != name {
        if k < files.len() {
            assert(r[k] == files[k]);
            assert(q <= k) by {
                if q > k {
                    assert(r[k].0 != other);
                }
            }
        }
        if q < r.len() {
            assert(q != i);
            assert(r[q] == files[q]);
            assert(k <= q) by {
                if k > q {
                    assert(files[q].0 != other);
                }
            }
        }
    }
}

/// A dry run leaves the files as they are, and tells of one map for each topic.
pub proof fn dry_run_writes_nothing(
    topics: Seq<Seq<char>>,
    notes: Seq<SummaryModel>,
    docs: Seq<DocumentModel>,
    files: Seq<(Seq<char>, Seq<char>)>,
    dry_run: bool,
)
    ensures
        dry_run ==> mocs_written(topics, notes, docs, files, dry_run).1 == files,
        mocs_written(topics, notes, docs, files, dry_run).0.len() == topics.len(),
    decreases topics.len(),
{
    if topics.len() > 0 {
        dry_run_writes_nothing(topics.drop_last(), notes, docs, files, dry_run);
    }
}

/// The map that is written last for a topic is what the topic's file then holds.
pub proof fn last_map_is_in_its_file(
    topics: Seq<Seq<char>>,
    topic: Seq<char>,
    notes: Seq<SummaryModel>,
    docs: Seq<DocumentModel>,
    files: Seq<(Seq<char>, Seq<char>)>,
)
    ensures
        file_text(
            mocs_written(topics.push(topic), notes, docs, files, false).1,
            moc_file_name(topic),
        ) == moc_content(
            topic,
            notes,
            docs,
            file_text(mocs_written(topics, notes, docs, files, false).1, moc_file_name(topic)),
        ),
{
    assert(topics.push(topic).drop_last() =~= topics);
    let before = mocs_written(topics, notes, docs, files, false).1;
    let name = moc_file_name(topic);
    written_file_reads_back(
        before,
        name,
        moc_content(topic, notes, docs, file_text(before, name)),
        name,
    );
}

// ---------------------------------------------------------------------------
// What maps and indexes list
// ---------------------------------------------------------------------------

/// The texts one behind the other.
pub open spec fn strung(parts: Seq<Seq<char>>) -> Seq<char>
    decreases parts.len(),
{
    if parts.len() == 0 {
        Seq::empty()
    } else {
        strung(parts.drop_last()) + parts.last()
    }
}

/// The line that an index has for a note: its title, its rank, and how many links lead
/// to it and from it.
pub open spec fn ranked_line(n: SummaryModel, label: Seq<char>) -> Seq<char> {
    "- [["@ + n.title + "]] · "@ + label + n.pagerank.short + " (In: "@ + decimal(
        n.in_degree as nat,
    ) + ", Out: "@ + decimal(n.out_degree as nat) + ")\n"@
}

/// The lines of the first `n` notes, or of all.
pub open spec fn first_lines(notes: Seq<SummaryModel>, label: Seq<char>, n: nat) -> Seq<Seq<char>> {
    Seq::new(
        if notes.len() < n {
            notes.len()
        } else {
            n
        },
        |k: int| ranked_line(notes[k], label),
    )
}

proof fn lemma_ranked_lines(out: Seq<char>, notes: Seq<SummaryModel>, label: Seq<char>, n: int)
    requires
        0 <= n <= notes.len(),
    ensures
        note_lines(out, notes, label, n) == out + strung(
            Seq::new(n as nat, |k: int| ranked_line(notes[k], label)),
        ),
    decreases n,
{
    let lines = Seq::new(n as nat, |k: int| ranked_line(notes[k], label));
    if n > 0 {
        lemma_ranked_lines(out, notes, label, n - 1);
        assert(lines.drop_last() =~= Seq::new(
            (n - 1) as nat,
            |k: int| ranked_line(notes[k], label),
        ));
        assert(note_lines(out, notes, label, n) =~= out + strung(lines));
    } else {
        assert(out + strung(lines) =~= out);
    }
}

/// The line that a map has for a connection.
pub open spec fn connection_line(c: (Seq<char>, usize)) -> Seq<char> {
    "- [["@ + c.0 + "]] ("@ + decimal(c.1 as nat) + " references)\n"@
}

proof fn lemma_connection_lines(out: Seq<char>, cs: Seq<(Seq<char>, usize)>, n: int)
    requires
        0 <= n <= cs.len(),
    ensures
        connection_lines(out, cs, n) == out + strung(
            Seq::new(n as nat, |k: int| connection_line(cs[k])),
        ),
    decreases n,
{
    let lines = Seq::new(n as nat, |k: int| connection_line(cs[k]));
    if n > 0 {
        lemma_connection_lines(out, cs, n - 1);
        assert(lines.drop_last() =~= Seq::new((n - 1) as nat, |k: int| connection_line(cs[k])));
        assert(connection_lines(out, cs, n) =~= out + strung(lines));
    } else {
        assert(out + strung(lines) =~= out);
    }
}

/// The short line that an index has for a note.
pub open spec fn short_line(n: SummaryModel) -> Seq<char> {
    "- [["@ + n.title + "]] · Hub: "@ + n.pagerank.short + "\n"@
}

proof fn lemma_short_lines(out: Seq<char>, notes: Seq<SummaryModel>, n: int)
    requires
        0 <= n <= notes.len(),
    ensures
        short_lines(out, notes, n) == out + strung(
            Seq::new(n as nat, |k: int| short_line(notes[k])),
        ),
    decreases n,
{
    let lines = Seq::new(n as nat, |k: int| short_line(notes[k]));
    if n > 0 {
        lemma_short_lines(out, notes, n - 1);
        assert(lines.drop_last() =~= Seq::new((n - 1) as nat, |k: int| short_line(notes[k])));
        assert(short_lines(out, notes, n) =~= out + strung(lines));
    } else {
        assert(out + strung(lines) =~= out);
    }
}

proof fn lemma_rendered_grows(out: Seq<char>, t: TaxonomyModel, depth: nat, n: int)
    ensures
        out.is_prefix_of(rendered(out, t, depth, n)),
    decreases t, n,
{
    if n <= 0 || n > t.children.len() {
        assert(out =~= out.take(out.len() as int));
    } else {
        lemma_rendered_grows(out, t, depth, n - 1);
        let before = rendered(out, t, depth, n - 1);
        let child = t.children[n - 1];
        let told = crate::taxonomy::tag_text(before, child, depth);
        lemma_tag_text_grows(before, child, depth);
        lemma_rendered_grows(told, child, depth + 1, child.children.len() as int);
        let r = rendered(out, t, depth, n);
        assert(out =~= r.take(out.len() as int)) by {
            assert(r.take(told.len() as int) =~= told);
            assert(told.take(before.len() as int) =~= before);
            assert(before.take(out.len() as int) =~= out);
            assert forall|i: int| 0 <= i < out.len() implies r[i] == out[i] by {
                assert(before.take(out.len() as int)[i] == out[i]);
                assert(told.take(before.len() as int)[i] == before[i]);
                assert(r.take(told.len() as int)[i] == told[i]);
            }
        }
    }
}

proof fn lemma_tag_text_grows(out: Seq<char>, t: TaxonomyModel, depth: nat)
    ensures
        out.is_prefix_of(crate::taxonomy::tag_text(out, t, depth)),
{
    let head = out + crate::taxonomy::hashes(crate::taxonomy::heading_level(depth)) + " #"@
        + t.full_path + "\n\n"@;
    lemma_ranked_lines(head, t.notes, "Hub: "@, t.notes.len() as int);
    let r = crate::taxonomy::tag_text(out, t, depth);
    assert(out =~= r.take(out.len() as int));
}

proof fn lemma_tree_grows(out: Seq<char>, heading: Seq<char>, notes: Seq<SummaryModel>)
    ensures
        out.is_prefix_of(with_tree(out, heading, notes)),
{
    let t = ranked_tree(taxonomy_of(notes));
    let r = with_tree(out, heading, notes);
    if t.children.len() > 0 {
        lemma_rendered_grows(out + heading, t, 1, t.children.len() as int);
        assert(out =~= r.take(out.len() as int)) by {
            assert(r.take((out + heading).len() as int) =~= out + heading);
        }
    } else {
        assert(out =~= out.take(out.len() as int));
    }
}

proof fn lemma_prefix_rest(a: Seq<char>, r: Seq<char>) -> (rest: Seq<char>)
    requires
        a.is_prefix_of(r),
    ensures
        r == a + rest,
{
    assert(r =~= a + r.skip(a.len() as int));
    r.skip(a.len() as int)
}

/// Whether a text holds a part, a line feed and more.
pub open spec fn holds_part(text: Seq<char>, before: Seq<char>, part: Seq<char>) -> bool {
    exists|a: Seq<char>, b: Seq<char>| text == #[trigger] (a + before + part + "\n"@ + b)
}

/// The map of a topic lists first its five most central notes, or all, then every note
/// of the topic, then the ten strongest connections, or all, each part up to a blank
/// line. A topic without notes says so.
pub proof fn topic_map_lists_its_notes(
    topic: Seq<char>,
    notes: Seq<SummaryModel>,
    docs: Seq<DocumentModel>,
)
    ensures
        ({
            let own = topic_notes(topic, notes);
            let text = topic_text(topic, notes, docs);
            let cs = sorted_by(
                connections_of(docs, title_keys(own)),
                |a: (Seq<char>, usize), b: (Seq<char>, usize)| stronger(a, b),
            );
            &&& own.len() > 0 ==> holds_part(
                text,
                "### Key Hub Notes & Core Concepts\n\n"@,
                strung(first_lines(own, "Hub Score: "@, 5)),
            )
            &&& own.len() > 0 ==> holds_part(
                text,
                "### Note Index\n\n"@,
                strung(Seq::new(own.len(), |k: int| short_line(own[k]))),
            )
            &&& own.len() == 0 ==> holds_part(
                text,
                "### Note Index\n\n"@,
                "_No notes currently categorized under this topic._\n"@,
            )
            &&& cs.len() > 0 ==> holds_part(
                text,
                "Outgoing references connecting this topic to broader knowledge:\n\n"@,
                strung(
                    Seq::new(
                        if cs.len() < 10 {
                            cs.len()
                        } else {
                            10
                        },
                        |k: int| connection_line(cs[k]),
                    ),
                ),
            )
        }),
{
    let own = topic_notes(topic, notes);
    let text = topic_text(topic, notes, docs);
    let found = connections_of(docs, title_keys(own));
    let lt = |a: (Seq<char>, usize), b: (Seq<char>, usize)| stronger(a, b);
    let cs = sorted_by(found, lt);
    sorted_keeps_items(found, lt);
    let head = "## Topic Overview\n\n"@ + "- **Topic**: `"@ + topic + "`\n"@
        + "- **Total Notes**: "@ + decimal(own.len()) + "\n"@
        + "- **Ordering**: Hub Centrality (PageRank descending)\n\n"@;
    let title = "### Key Hub Notes & Core Concepts\n\n"@;
    let n = at_most(own.len(), 5) as int;
    let lines = Seq::new(n as nat, |k: int| ranked_line(own[k], "Hub Score: "@));
    let hubs = if own.len() == 0 {
        head
    } else {
        note_lines(head + title, own, "Hub Score: "@, n) + "\n"@
    };
    lemma_ranked_lines(head + title, own, "Hub Score: "@, n);
    let tree = with_tree(hubs, "### Taxonomy Breakdown\n\n"@, own);
    lemma_tree_grows(hubs, "### Taxonomy Breakdown\n\n"@, own);
    let more = lemma_prefix_rest(hubs, tree);
    let index = tree + "### Note Index\n\n"@;
    let all = Seq::new(own.len(), |k: int| short_line(own[k]));
    lemma_short_lines(index, own, own.len() as int);
    let none = "_No notes currently categorized under this topic._\n\n"@;
    let listed = if own.len() == 0 {
        index + none
    } else {
        short_lines(index, own, own.len() as int) + "\n"@
    };
    let said = "### Connected Vault Concepts\n\n"@;
    let outgoing = "Outgoing references connecting this topic to broader knowledge:\n\n"@;
    let c = at_most(cs.len(), 10) as int;
    let links = Seq::new(c as nat, |k: int| connection_line(cs[k]));
    lemma_connection_lines(listed + said + outgoing, cs, c);
    let last = if found.len() == 0 {
        Seq::<char>::empty()
    } else {
        said + outgoing + strung(links) + "\n"@
    };
    assert(text =~= listed + last);
    if own.len() > 0 {
        assert(first_lines(own, "Hub Score: "@, 5) =~= lines);
        let rest = more + "### Note Index\n\n"@ + strung(all) + "\n"@ + last;
        assert(text =~= head + title + strung(lines) + "\n"@ + rest);
        assert(text =~= tree + "### Note Index\n\n"@ + strung(all) + "\n"@ + last);
    } else {
        reveal_strlit("_No notes currently categorized under this topic._\n\n");
        reveal_strlit("_No notes currently categorized under this topic._\n");
        reveal_strlit("\n");
        assert(none =~= "_No notes currently categorized under this topic._\n"@ + "\n"@);
        assert(text =~= tree + "### Note Index\n\n"@
            + "_No notes currently categorized under this topic._\n"@ + "\n"@ + last);
    }
    if cs.len() > 0 {
        assert(Seq::new(
            if cs.len() < 10 {
                cs.len()
            } else {
                10
            },
            |k: int| connection_line(cs[k]),
        ) =~= links);
        assert(text =~= (listed + said) + outgoing + strung(links) + "\n"@ + Seq::<char>::empty());
    }
}

/// The hubs that a map names are its five most central notes, or all.
pub proof fn hubs_are_the_first_five(own: Seq<SummaryModel>)
    ensures
        own.len() <= 5 ==> hub_titles(own).len() == own.len(),
        own.len() > 5 ==> hub_titles(own).len() == 5,
        forall|k: int| 0 <= k < hub_titles(own).len() ==> #[trigger] hub_titles(own)[k] == own[k].title,
{
}

/// What an index says first: how much there is.
spec fn overview(notes: nat, mocs: nat, words: nat, orphans: nat, wanted: nat) -> Seq<char> {
    "## Vault Overview\n\n"@ + "- **Total Notes**: "@ + decimal(notes) + "\n"@
        + "- **Topic MOCs**: "@ + decimal(mocs) + "\n"@ + "- **Total Words**: "@ + decimal(words)
        + "\n"@ + "- **Orphan Notes**: "@ + decimal(orphans) + " ([[Orphans]])\n"@
        + "- **Wanted Notes**: "@ + decimal(wanted) + "\n\n"@
}

/// A titled part of an index; none where there is nothing to list.
spec fn titled_part(title: Seq<char>, lines: Seq<Seq<char>>) -> Seq<char> {
    if lines.len() == 0 {
        Seq::empty()
    } else {
        title + strung(lines) + "\n"@
    }
}

proof fn lemma_titled(out: Seq<char>, title: Seq<char>, lines: Seq<Seq<char>>)
    ensures
        lines.len() > 0 ==> out + title + strung(lines) + "\n"@ == out + titled_part(title, lines),
        lines.len() == 0 ==> out == out + titled_part(title, lines),
{
    if lines.len() > 0 {
        assert(out + title + strung(lines) + "\n"@ =~= out + titled_part(title, lines));
    } else {
        assert(out =~= out + titled_part(title, lines));
    }
}

proof fn lemma_part_held(
    text: Seq<char>,
    a: Seq<char>,
    title: Seq<char>,
    lines: Seq<Seq<char>>,
    b: Seq<char>,
)
    requires
        text == a + titled_part(title, lines) + b,
    ensures
        lines.len() > 0 ==> holds_part(text, title, strung(lines)),
{
    if lines.len() > 0 {
        assert(text =~= a + title + strung(lines) + "\n"@ + b);
    }
}

proof fn lemma_index_parts(
    notes: Seq<SummaryModel>,
    mocs: Seq<TopicModel>,
    orphans: nat,
    wanted: nat,
) -> (rest: (Seq<char>, Seq<char>))
    ensures
        ({
            let head = overview(notes.len(), mocs.len(), word_total(notes), orphans, wanted);
            let maps = titled_part(
                "## Maps of Content (MOCs)\n\n"@,
                Seq::new(mocs.len(), |k: int| map_line(mocs[k])),
            );
            let hubs = titled_part(
                "## Key Vault Hubs (High Centrality)\n\n"@,
                first_lines(notes, "PageRank: "@, 7),
            );
            let bare_notes = by_rank(untagged_of(notes));
            let untagged = titled_part(
                "## Untagged Notes\n\n"@,
                Seq::new(bare_notes.len(), |k: int| short_line(bare_notes[k])),
            );
            index_text(notes, mocs, orphans, wanted) == head + maps + hubs + rest.0 + untagged
                + rest.1
        }),
{
    let text = index_text(notes, mocs, orphans, wanted);
    let head = overview(notes.len(), mocs.len(), word_total(notes), orphans, wanted);
    let m_title = "## Maps of Content (MOCs)\n\n"@;
    let m_lines = Seq::new(mocs.len(), |k: int| map_line(mocs[k]));
    lemma_map_lines(head + m_title, mocs, mocs.len() as int);
    lemma_titled(head, m_title, m_lines);
    let maps = head + titled_part(m_title, m_lines);
    let h_title = "## Key Vault Hubs (High Centrality)\n\n"@;
    let n = at_most(notes.len(), 7) as int;
    let h_lines = first_lines(notes, "PageRank: "@, 7);
    assert(h_lines =~= Seq::new(n as nat, |k: int| ranked_line(notes[k], "PageRank: "@)));
    lemma_ranked_lines(maps + h_title, notes, "PageRank: "@, n);
    lemma_titled(maps, h_title, h_lines);
    let hubs = maps + titled_part(h_title, h_lines);
    let tree = with_tree(hubs, "## Vault Taxonomy\n\n"@, notes);
    lemma_tree_grows(hubs, "## Vault Taxonomy\n\n"@, notes);
    let t_part = lemma_prefix_rest(hubs, tree);
    let bare_notes = by_rank(untagged_of(notes));
    let u_title = "## Untagged Notes\n\n"@;
    let u_lines = Seq::new(bare_notes.len(), |k: int| short_line(bare_notes[k]));
    lemma_short_lines(tree + u_title, bare_notes, bare_notes.len() as int);
    lemma_titled(tree, u_title, u_lines);
    let untagged = tree + titled_part(u_title, u_lines);
    let health = untagged + "## Vault Health\n\n"@;
    assert(untagged.is_prefix_of(text)) by {
        lemma_health_grows(untagged, orphans, wanted);
    }
    let end = lemma_prefix_rest(untagged, text);
    (t_part, end)
}

/// What an index says last: whether notes need connections and pages are wanted.
spec fn with_health(untagged: Seq<char>, orphans: nat, wanted: nat) -> Seq<char> {
    let health = untagged + "## Vault Health\n\n"@;
    let orphan_line = if orphans == 0 {
        health + "- ✓ **Orphans**: Zero isolated notes detected. Vault graph is connected.\n"@
    } else {
        health + "- ⚡ **Orphans**: [[Orphans]] ("@ + decimal(orphans)
            + " notes need connections)\n"@
    };
    if wanted == 0 {
        orphan_line + "- ✓ **Wanted Pages**: All wikilinks resolve to existing notes.\n"@
    } else {
        orphan_line + "- ⚡ **Wanted Pages**: "@ + decimal(wanted) + " unresolved references.\n"@
    }
}

proof fn lemma_health_grows(untagged: Seq<char>, orphans: nat, wanted: nat)
    ensures
        untagged.is_prefix_of(with_health(untagged, orphans, wanted)),
{
    let r = with_health(untagged, orphans, wanted);
    assert(untagged =~= r.take(untagged.len() as int));
}

/// The living index lists the maps, the seven most central notes, or all, and the notes
/// without tags, each up to a blank line.
pub proof fn index_lists_its_notes(
    notes: Seq<SummaryModel>,
    mocs: Seq<TopicModel>,
    orphans: nat,
    wanted: nat,
)
    ensures
        ({
            let text = index_text(notes, mocs, orphans, wanted);
            let bare_notes = by_rank(untagged_of(notes));
            &&& notes.len() > 0 ==> holds_part(
                text,
                "## Key Vault Hubs (High Centrality)\n\n"@,
                strung(first_lines(notes, "PageRank: "@, 7)),
            )
            &&& bare_notes.len() > 0 ==> holds_part(
                text,
                "## Untagged Notes\n\n"@,
                strung(Seq::new(bare_notes.len(), |k: int| short_line(bare_notes[k]))),
            )
            &&& mocs.len() > 0 ==> holds_part(
                text,
                "## Maps of Content (MOCs)\n\n"@,
                strung(Seq::new(mocs.len(), |k: int| map_line(mocs[k]))),
            )
        }),
{
    let text = index_text(notes, mocs, orphans, wanted);
    let (tree, end) = lemma_index_parts(notes, mocs, orphans, wanted);
    let head = overview(notes.len(), mocs.len(), word_total(notes), orphans, wanted);
    let m_lines = Seq::new(mocs.len(), |k: int| map_line(mocs[k]));
    let h_lines = first_lines(notes, "PageRank: "@, 7);
    let bare_notes = by_rank(untagged_of(notes));
    let u_lines = Seq::new(bare_notes.len(), |k: int| short_line(bare_notes[k]));
    let (m_title, h_title, u_title) = (
        "## Maps of Content (MOCs)\n\n"@,
        "## Key Vault Hubs (High Centrality)\n\n"@,
        "## Untagged Notes\n\n"@,
    );
    let (m, h, u) = (
        titled_part(m_title, m_lines),
        titled_part(h_title, h_lines),
        titled_part(u_title, u_lines),
    );
    lemma_six_parts(head, m, h, tree, u, end);
    lemma_part_held(text, head, m_title, m_lines, h + tree + u + end);
    lemma_part_held(text, head + m, h_title, h_lines, tree + u + end);
    lemma_part_held(text, head + m + h + tree, u_title, u_lines, end);
}

proof fn lemma_six_parts(
    a: Seq<char>,
    b: Seq<char>,
    c: Seq<char>,
    d: Seq<char>,
    e: Seq<char>,
    f: Seq<char>,
)
    ensures
        a + b + c + d + e + f == a + b + (c + d + e + f),
        a + b + c + d + e + f == (a + b) + c + (d + e + f),
        a + b + c + d + e + f == a + (b + c + d + e + f),
{
    assert(a + b + c + d + e + f =~= a + b + (c + d + e + f));
    assert(a + b + c + d + e + f =~= (a + b) + c + (d + e + f));
    assert(a + b + c + d + e + f =~= a + (b + c + d + e + f));
}

/// The living index begins by saying how many notes, maps and words there are, how many
/// notes are isolated and how many pages are wanted.
pub proof fn index_says_how_much_there_is(
    notes: Seq<SummaryModel>,
    mocs: Seq<TopicModel>,
    orphans: nat,
    wanted: nat,
)
    ensures
        ("## Vault Overview\n\n- **Total Notes**: "@ + decimal(notes.len())
            + "\n- **Topic MOCs**: "@ + decimal(mocs.len()) + "\n- **Total Words**: "@ + decimal(
            word_total(notes),
        ) + "\n- **Orphan Notes**: "@ + decimal(orphans) + " ([[Orphans]])\n- **Wanted Notes**: "@
            + decimal(wanted) + "\n\n"@).is_prefix_of(index_text(notes, mocs, orphans, wanted)),
{
    let text = index_text(notes, mocs, orphans, wanted);
    let (tree, end) = lemma_index_parts(notes, mocs, orphans, wanted);
    let head = overview(notes.len(), mocs.len(), word_total(notes), orphans, wanted);
    let m_lines = Seq::new(mocs.len(), |k: int| map_line(mocs[k]));
    let h_lines = first_lines(notes, "PageRank: "@, 7);
    let bare_notes = by_rank(untagged_of(notes));
    let u_lines = Seq::new(bare_notes.len(), |k: int| short_line(bare_notes[k]));
    let (m, h, u) = (
        titled_part("## Maps of Content (MOCs)\n\n"@, m_lines),
        titled_part("## Key Vault Hubs (High Centrality)\n\n"@, h_lines),
        titled_part("## Untagged Notes\n\n"@, u_lines),
    );
    lemma_six_parts(head, m, h, tree, u, end);
    lemma_overview(notes.len(), mocs.len(), word_total(notes), orphans, wanted);
    let rest = m + h + tree + u + end;
    assert(head =~= (head + rest).take(head.len() as int));
}

proof fn lemma_overview(notes: nat, mocs: nat, words: nat, orphans: nat, wanted: nat)
    ensures
        "## Vault Overview\n\n"@ + "- **Total Notes**: "@ + decimal(notes) + "\n"@
            + "- **Topic MOCs**: "@ + decimal(mocs) + "\n"@ + "- **Total Words**: "@ + decimal(words)
            + "\n"@ + "- **Orphan Notes**: "@ + decimal(orphans) + " ([[Orphans]])\n"@
            + "- **Wanted Notes**: "@ + decimal(wanted) + "\n\n"@
            == "## Vault Overview\n\n- **Total Notes**: "@ + decimal(notes)
            + "\n- **Topic MOCs**: "@ + decimal(mocs) + "\n- **Total Words**: "@ + decimal(words)
            + "\n- **Orphan Notes**: "@ + decimal(orphans) + " ([[Orphans]])\n- **Wanted Notes**: "@
            + decimal(wanted) + "\n\n"@,
{
    reveal_strlit("## Vault Overview\n\n");
    reveal_strlit("- **Total Notes**: ");
    reveal_strlit("## Vault Overview\n\n- **Total Notes**: ");
    reveal_strlit("\n");
    reveal_strlit("- **Topic MOCs**: ");
    reveal_strlit("\n- **Topic MOCs**: ");
    reveal_strlit("- **Total Words**: ");
    reveal_strlit("\n- **Total Words**: ");
    reveal_strlit("- **Orphan Notes**: ");
    reveal_strlit("\n- **Orphan Notes**: ");
    reveal_strlit(" ([[Orphans]])\n");
    reveal_strlit("- **Wanted Notes**: ");
    reveal_strlit(" ([[Orphans]])\n- **Wanted Notes**: ");
    assert("## Vault Overview\n\n- **Total Notes**: "@ =~= "## Vault Overview\n\n"@
        + "- **Total Notes**: "@);
    assert("\n- **Topic MOCs**: "@ =~= "\n"@ + "- **Topic MOCs**: "@);
    assert("\n- **Total Words**: "@ =~= "\n"@ + "- **Total Words**: "@);
    assert("\n- **Orphan Notes**: "@ =~= "\n"@ + "- **Orphan Notes**: "@);
    assert(" ([[Orphans]])\n- **Wanted Notes**: "@ =~= " ([[Orphans]])\n"@ + "- **Wanted Notes**: "@);
    let left = "## Vault Overview\n\n"@ + "- **Total Notes**: "@ + decimal(notes) + "\n"@
        + "- **Topic MOCs**: "@ + decimal(mocs) + "\n"@ + "- **Total Words**: "@ + decimal(words)
        + "\n"@ + "- **Orphan Notes**: "@ + decimal(orphans) + " ([[Orphans]])\n"@
        + "- **Wanted Notes**: "@ + decimal(wanted) + "\n\n"@;
    let right = ("## Vault Overview\n\n"@ + "- **Total Notes**: "@) + decimal(notes) + ("\n"@
        + "- **Topic MOCs**: "@) + decimal(mocs) + ("\n"@ + "- **Total Words**: "@) + decimal(words)
        + ("\n"@ + "- **Orphan Notes**: "@) + decimal(orphans) + (" ([[Orphans]])\n"@
        + "- **Wanted Notes**: "@) + decimal(wanted) + "\n\n"@;
    assert(left =~= right);
}

/// The line that an index has for a map.
pub open spec fn map_line(m: TopicModel) -> Seq<char> {
    "- [["@ + m.title + "]] ("@ + decimal(m.note_count as nat) + " notes)\n"@
}

proof fn lemma_map_lines(out: Seq<char>, mocs: Seq<TopicModel>, n: int)
    requires
        0 <= n <= mocs.len(),
    ensures
        moc_lines(out, mocs, n) == out + strung(Seq::new(n as nat, |k: int| map_line(mocs[k]))),
    decreases n,
{
    let lines = Seq::new(n as nat, |k: int| map_line(mocs[k]));
    if n > 0 {
        lemma_map_lines(out, mocs, n - 1);
        assert(lines.drop_last() =~= Seq::new((n - 1) as nat, |k: int| map_line(mocs[k])));
        assert(moc_lines(out, mocs, n) =~= out + strung(lines));
    } else {
        assert(out + strung(lines) =~= out);
    }
}

} // verus!
