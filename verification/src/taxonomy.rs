//! Notes arranged by their hierarchical tags.

use crate::graph::{Rank, RankModel};
use crate::sections::nonempty;
use crate::sorting::{lemma_sorted_views, sort_by, sorted_by};
use crate::text::{
    clone_strings, decimal, group_views, join, push_decimal, same, split_on, str_join, str_lt,
    str_split, str_trim, str_trim_start_char, text_lt, trim, trim_start_char, views,
};
use vstd::prelude::*;

verus! {

// ---------------------------------------------------------------------------
// Summaries
// ---------------------------------------------------------------------------

/// What an index tells of a note.
#[derive(Debug)]
pub struct NoteSummary {
    pub title: String,
    pub path: String,
    pub tags: Vec<String>,
    pub word_count: usize,
    pub pagerank: Rank,
    pub in_degree: usize,
    pub out_degree: usize,
}

/// What a `NoteSummary` says.
pub struct SummaryModel {
    pub title: Seq<char>,
    pub path: Seq<char>,
    pub tags: Seq<Seq<char>>,
    pub word_count: usize,
    pub pagerank: RankModel,
    pub in_degree: usize,
    pub out_degree: usize,
}

impl View for NoteSummary {
    type V = SummaryModel;

    open spec fn view(&self) -> SummaryModel {
        SummaryModel {
            title: self.title@,
            path: self.path@,
            tags: views(self.tags@),
            word_count: self.word_count,
            pagerank: self.pagerank@,
            in_degree: self.in_degree,
            out_degree: self.out_degree,
        }
    }
}

impl Clone for NoteSummary {
    fn clone(&self) -> (r: Self)
        ensures
            r@ == self@,
    {
        NoteSummary {
            title: self.title.clone(),
            path: self.path.clone(),
            tags: clone_strings(&self.tags),
            word_count: self.word_count,
            pagerank: self.pagerank.clone(),
            in_degree: self.in_degree,
            out_degree: self.out_degree,
        }
    }
}

/// Whether a note comes before another in an index: the more central first, and
/// by title where they are equally central.
pub open spec fn summary_before(a: SummaryModel, b: SummaryModel) -> bool {
    a.pagerank.key > b.pagerank.key || (a.pagerank.key == b.pagerank.key && text_lt(
        a.title,
        b.title,
    ))
}

/// The notes in the order of an index.
pub open spec fn by_rank(notes: Seq<SummaryModel>) -> Seq<SummaryModel> {
    sorted_by(notes, |a: SummaryModel, b: SummaryModel| summary_before(a, b))
}

fn summary_less(a: &NoteSummary, b: &NoteSummary) -> (r: bool)
    ensures
        r == summary_before(a@, b@),
{
    if a.pagerank.key != b.pagerank.key {
        return b.pagerank.key < a.pagerank.key;
    }
    str_lt(a.title.as_str(), b.title.as_str())
}

/// The notes in the order of an index.
pub fn sort_summaries(notes: Vec<NoteSummary>) -> (r: Vec<NoteSummary>)
    ensures
        views(r@) == by_rank(views(notes@)),
{
    let ghost lt = |a: NoteSummary, b: NoteSummary| summary_before(a@, b@);
    let ghost lt_view = |a: SummaryModel, b: SummaryModel| summary_before(a, b);
    proof {
        lemma_sorted_views(notes@, lt, lt_view);
    }
    sort_by(notes, summary_less, Ghost(lt))
}

/// The order of an index is an order: sorting by it puts the notes in place.
pub proof fn index_order_is_order(notes: Seq<SummaryModel>)
    ensures
        crate::sorting::in_order(
            by_rank(notes),
            |a: SummaryModel, b: SummaryModel| summary_before(a, b),
        ),
{
    let lt = |a: SummaryModel, b: SummaryModel| summary_before(a, b);
    assert forall|a: SummaryModel| !#[trigger] lt(a, a) by {
        crate::text::lemma_text_lt_irreflexive(a.title);
    }
    assert forall|a: SummaryModel, b: SummaryModel, c: SummaryModel| #[trigger]
        lt(a, b) && #[trigger] lt(b, c) implies lt(a, c) by {
        if a.pagerank.key == b.pagerank.key && b.pagerank.key == c.pagerank.key {
            crate::text::lemma_text_lt_transitive(a.title, b.title, c.title);
        }
    }
    assert forall|a: SummaryModel, b: SummaryModel, c: SummaryModel|
        !#[trigger] lt(a, b) && !#[trigger] lt(b, c) implies !lt(a, c) by {
        if a.pagerank.key == b.pagerank.key && b.pagerank.key == c.pagerank.key {
            crate::text::lemma_text_lt_total(a.title, b.title);
            crate::text::lemma_text_lt_total(b.title, c.title);
            crate::text::lemma_text_lt_irreflexive(a.title);
            if text_lt(a.title, c.title) {
                if text_lt(b.title, a.title) {
                    crate::text::lemma_text_lt_transitive(b.title, a.title, c.title);
                }
            }
        }
    }
    crate::sorting::sorted_is_in_order(notes, lt);
}

// ---------------------------------------------------------------------------
// The tree
// ---------------------------------------------------------------------------

/// The notes under a tag, and the tags below it in the order of their names.
#[derive(Debug)]
pub struct TagTaxonomy {
    pub segment: String,
    pub full_path: String,
    pub notes: Vec<NoteSummary>,
    pub children: Vec<TagTaxonomy>,
}

/// What a `TagTaxonomy` says.
pub struct TaxonomyModel {
    pub segment: Seq<char>,
    pub full_path: Seq<char>,
    pub notes: Seq<SummaryModel>,
    pub children: Seq<TaxonomyModel>,
}

impl TagTaxonomy {
    /// What the tree says.
    pub open spec fn model(&self) -> TaxonomyModel
        decreases self,
    {
        TaxonomyModel {
            segment: self.segment@,
            full_path: self.full_path@,
            notes: views(self.notes@),
            children: Seq::new(
                self.children@.len(),
                |i: int|
                    if 0 <= i < self.children@.len() {
                        self.children[i].model()
                    } else {
                        arbitrary()
                    },
            ),
        }
    }
}

impl View for TagTaxonomy {
    type V = TaxonomyModel;

    open spec fn view(&self) -> TaxonomyModel {
        self.model()
    }
}

/// The notes with one more, unless one has its title already.
pub open spec fn with_note(notes: Seq<SummaryModel>, note: SummaryModel) -> Seq<SummaryModel> {
    if exists|k: int| 0 <= k < notes.len() && (#[trigger] notes[k]).title == note.title {
        notes
    } else {
        notes.push(note)
    }
}

/// The first place from `i` on that does not come before this name.
pub open spec fn child_place(children: Seq<TaxonomyModel>, segment: Seq<char>, i: int) -> int
    decreases children.len() - i,
{
    if i >= children.len() {
        children.len() as int
    } else if !text_lt(children[i].segment, segment) {
        i
    } else {
        child_place(children, segment, i + 1)
    }
}

/// A tag with nothing under it.
pub open spec fn bare(segment: Seq<char>, full_path: Seq<char>) -> TaxonomyModel {
    TaxonomyModel { segment, full_path, notes: Seq::empty(), children: Seq::empty() }
}

/// The tree with a note under the tag that the segments from `depth` on lead to.
pub open spec fn inserted(
    t: TaxonomyModel,
    segments: Seq<Seq<char>>,
    note: SummaryModel,
    depth: int,
) -> TaxonomyModel
    decreases segments.len() - depth,
{
    if depth >= segments.len() {
        TaxonomyModel { notes: with_note(t.notes, note), ..t }
    } else {
        let segment = segments[depth];
        let k = child_place(t.children, segment, 0);
        if k < t.children.len() && t.children[k].segment == segment {
            TaxonomyModel {
                children: t.children.update(
                    k,
                    inserted(t.children[k], segments, note, depth + 1),
                ),
                ..t
            }
        } else {
            let child = bare(segment, join(segments.take(depth + 1), "/"@));
            TaxonomyModel {
                children: t.children.insert(k, inserted(child, segments, note, depth + 1)),
                ..t
            }
        }
    }
}

/// A tag without white space around it and without leading hashes.
pub open spec fn plain_tag(tag: Seq<char>) -> Seq<char> {
    trim_start_char(trim(tag), '#')
}

/// The tree with a note under its tag.
pub open spec fn with_tag_note(t: TaxonomyModel, tag: Seq<char>, note: SummaryModel) -> TaxonomyModel {
    let clean = plain_tag(tag);
    if clean.len() == 0 {
        t
    } else {
        inserted(t, nonempty(split_on(clean, '/')), note, 0)
    }
}

/// The tree with the notes of every tag in the order of an index.
pub open spec fn ranked_tree(t: TaxonomyModel) -> TaxonomyModel
    decreases t,
{
    TaxonomyModel {
        segment: t.segment,
        full_path: t.full_path,
        notes: by_rank(t.notes),
        children: Seq::new(
            t.children.len(),
            |i: int|
                if 0 <= i < t.children.len() {
                    ranked_tree(t.children[i])
                } else {
                    arbitrary()
                },
        ),
    }
}

/// `n` hashes.
pub open spec fn hashes(n: nat) -> Seq<char> {
    Seq::new(n, |i: int| '#')
}

/// The level of the headings of tags at this depth: from 2 to 6.
pub open spec fn heading_level(depth: nat) -> nat {
    if depth >= 4 {
        6
    } else {
        depth + 2
    }
}

/// The text with a line for each of the first `n` notes.
pub open spec fn note_lines(out: Seq<char>, notes: Seq<SummaryModel>, label: Seq<char>, n: int) -> Seq<
    char,
>
    decreases n,
{
    if n <= 0 {
        out
    } else {
        let note = notes[n - 1];
        note_lines(out, notes, label, n - 1) + "- [["@ + note.title + "]] · "@ + label
            + note.pagerank.short + " (In: "@ + decimal(note.in_degree as nat) + ", Out: "@
            + decimal(note.out_degree as nat) + ")\n"@
    }
}

/// The text with the heading of a tag and its notes.
pub open spec fn tag_text(out: Seq<char>, t: TaxonomyModel, depth: nat) -> Seq<char> {
    let head = out + hashes(heading_level(depth)) + " #"@ + t.full_path + "\n\n"@;
    if t.notes.len() == 0 {
        head
    } else {
        note_lines(head, t.notes, "Hub: "@, t.notes.len() as int) + "\n"@
    }
}

/// The text with the first `n` tags below `t`, each followed by those below it.
pub open spec fn rendered(out: Seq<char>, t: TaxonomyModel, depth: nat, n: int) -> Seq<char>
    decreases t, n,
{
    if n <= 0 || n > t.children.len() {
        out
    } else {
        let before = rendered(out, t, depth, n - 1);
        let child = t.children[n - 1];
        rendered(tag_text(before, child, depth), child, depth + 1, child.children.len() as int)
    }
}

/// Below the lowest heading level the depth does not matter.
proof fn lemma_deep(out: Seq<char>, t: TaxonomyModel, a: nat, b: nat, n: int)
    requires
        a >= 4,
        b >= 4,
    ensures
        rendered(out, t, a, n) == rendered(out, t, b, n),
    decreases t, n,
{
    if 0 < n <= t.children.len() {
        lemma_deep(out, t, a, b, n - 1);
        let child = t.children[n - 1];
        let before = tag_text(rendered(out, t, a, n - 1), child, a);
        lemma_deep(before, child, a + 1, b + 1, child.children.len() as int);
    }
}

/// Appends a line for each of the first `n` notes.
pub fn push_note_lines(out: &mut String, notes: &Vec<NoteSummary>, label: &str, n: usize)
    requires
        n <= notes@.len(),
    ensures
        final(out)@ == note_lines(old(out)@, views(notes@), label@, n as int),
{
    let ghost before = out@;
    let mut i: usize = 0;
    while i < n
        invariant
            i <= n <= notes@.len(),
            out@ == note_lines(before, views(notes@), label@, i as int),
        decreases n - i,
    {
        let note = &notes[i];
        assert(views(notes@)[i as int] == note@);
        out.append("- [[");
        out.append(note.title.as_str());
        out.append("]] · ");
        out.append(label);
        out.append(note.pagerank.short.as_str());
        out.append(" (In: ");
        push_decimal(out, note.in_degree);
        out.append(", Out: ");
        push_decimal(out, note.out_degree);
        out.append(")\n");
        i += 1;
    }
}

impl Default for TagTaxonomy {
    fn default() -> (r: Self)
        ensures
            r@ == bare(Seq::empty(), Seq::empty()),
    {
        TagTaxonomy::leaf(String::new(), String::new())
    }
}

impl TagTaxonomy {
    fn leaf(segment: String, full_path: String) -> (r: Self)
        ensures
            r@ == bare(segment@, full_path@),
    {
        broadcast use group_views;

        let r = TagTaxonomy { segment, full_path, notes: Vec::new(), children: Vec::new() };
        assert(r@.children =~= Seq::empty());
        assert(r@.notes =~= Seq::empty());
        r
    }

    /// The tags below are the views of the children.
    pub proof fn lemma_children(&self)
        ensures
            self@.children == views(self.children@),
    {
        assert(self@.children =~= views(self.children@));
    }

    fn place(&self, segment: &str) -> (r: usize)
        ensures
            r == child_place(self@.children, segment@, 0),
            r <= self.children@.len(),
    {
        let ghost all = self@.children;
        proof {
            self.lemma_children();
        }
        let mut i: usize = 0;
        while i < self.children.len()
            invariant
                i <= self.children@.len(),
                all == self@.children,
                all == views(self.children@),
                child_place(all, segment@, i as int) == child_place(all, segment@, 0),
            decreases self.children.len() - i,
        {
            assert(all[i as int] == self.children@[i as int]@);
            if !str_lt(self.children[i].segment.as_str(), segment) {
                return i;
            }
            i += 1;
        }
        i
    }

    fn insert_recursive(&mut self, segments: &Vec<String>, note: &NoteSummary, depth: usize)
        requires
            depth <= segments@.len(),
        ensures
            final(self)@ == inserted(old(self)@, views(segments@), note@, depth as int),
        decreases segments@.len() - depth,
    {
        broadcast use group_views;

        let ghost t = self@;
        proof {
            self.lemma_children();
        }
        if depth >= segments.len() {
            let mut k: usize = 0;
            while k < self.notes.len()
                invariant
                    k <= self.notes@.len(),
                    self@ == t,
                    t == old(self)@,
                    depth >= segments@.len(),
                    forall|j: int|
                        0 <= j < k ==> (#[trigger] views(self.notes@)[j]).title != note@.title,
                decreases self.notes.len() - k,
            {
                assert(views(self.notes@)[k as int] == self.notes@[k as int]@);
                if same(self.notes[k].title.as_str(), note.title.as_str()) {
                    return;
                }
                k += 1;
            }
            let ghost before = *self;
            self.notes.push(note.clone());
            proof {
                self.lemma_children();
                before.lemma_children();
            }
            return;
        }
        let segment = &segments[depth];
        let ghost segs = views(segments@);
        assert(segs[depth as int] == segment@);
        let k: usize = self.place(segment.as_str());
        let ghost kids = self.children@;
        let found = k < self.children.len() && same(
            self.children[k].segment.as_str(),
            segment.as_str(),
        );
        if found {
            let mut child = self.children.remove(k);
            assert(t.children[k as int] == child@);
            child.insert_recursive(segments, note, depth + 1);
            self.children.insert(k, child);
            proof {
                self.lemma_children();
                assert(self@.children =~= t.children.update(k as int, child@));
            }
        } else {
            assert(!(k < t.children.len() && t.children[k as int].segment == segment@)) by {
                if k < t.children.len() {
                    assert(t.children[k as int] == kids[k as int]@);
                }
            }
            let mut path: Vec<String> = Vec::new();
            let upto: usize = depth + 1;
            let mut i: usize = 0;
            while i < upto
                invariant
                    i <= upto,
                    upto <= segments@.len(),
                    segs == views(segments@),
                    views(path@) == segs.take(i as int),
                decreases upto - i,
            {
                path.push(segments[i].clone());
                i += 1;
                assert(segs.take(i as int) =~= segs.take(i as int - 1).push(segs[i as int - 1]));
            }
            let full_path = str_join(&path, "/");
            let mut child = TagTaxonomy::leaf(segment.clone(), full_path);
            child.insert_recursive(segments, note, depth + 1);
            self.children.insert(k, child);
            proof {
                self.lemma_children();
                assert(self@.children =~= t.children.insert(k as int, child@));
            }
        }
    }

    /// Puts a note under its tag, such as `ai/ml/nlp`.
    pub fn insert(&mut self, tag_path: &str, note: &NoteSummary)
        ensures
            final(self)@ == with_tag_note(old(self)@, tag_path@, note@),
    {
        broadcast use group_views;

        let trimmed = str_trim(tag_path);
        let clean = str_trim_start_char(trimmed.as_str(), '#');
        if clean.as_str().is_empty() {
            return;
        }
        let parts = str_split(clean.as_str(), '/');
        let ghost all = views(parts@);
        let mut segments: Vec<String> = Vec::new();
        let mut i: usize = 0;
        while i < parts.len()
            invariant
                i <= parts@.len(),
                all == views(parts@),
                views(segments@) == nonempty(all.take(i as int)),
            decreases parts.len() - i,
        {
            assert(all.take(i as int + 1).drop_last() =~= all.take(i as int));
            if !parts[i].as_str().is_empty() {
                segments.push(parts[i].clone());
            }
            i += 1;
        }
        assert(all.take(i as int) =~= all);
        self.insert_recursive(&segments, note, 0);
    }

    /// Puts the notes of every tag in the order of an index.
    pub fn sort_by_pagerank(&mut self)
        ensures
            final(self)@ == ranked_tree(old(self)@),
        decreases *old(self),
    {
        let ghost first = *self;
        let mut notes: Vec<NoteSummary> = Vec::new();
        std::mem::swap(&mut notes, &mut self.notes);
        self.notes = sort_summaries(notes);
        let mut i: usize = 0;
        let n: usize = self.children.len();
        while i < n
            invariant
                i <= n,
                first == *old(self),
                n == first.children@.len(),
                self.children@.len() == n,
                self.segment == first.segment,
                self.full_path == first.full_path,
                views(self.notes@) == by_rank(views(first.notes@)),
                forall|k: int|
                    0 <= k < i ==> (#[trigger] self.children@[k])@ == ranked_tree(
                        first.children@[k]@,
                    ),
                forall|k: int| i <= k < n ==> #[trigger] self.children@[k] == first.children@[k],
            decreases n - i,
        {
            let ghost before = self.children@;
            let mut child = self.children.remove(i);
            assert(child == first.children@[i as int]);
            child.sort_by_pagerank();
            self.children.insert(i, child);
            assert(self.children@ =~= before.update(i as int, child));
            i += 1;
        }
        proof {
            self.lemma_children();
            first.lemma_children();
            assert(self@.children =~= ranked_tree(first@).children);
            assert(self@ == ranked_tree(first@));
        }
    }

    /// Appends the tags below this one, each with its notes, in Markdown.
    pub fn render_markdown(&self, depth: usize, out: &mut String)
        ensures
            final(out)@ == rendered(
                old(out)@,
                self@,
                depth as nat,
                self@.children.len() as int,
            ),
        decreases self,
    {
        proof {
            self.lemma_children();
        }
        let ghost first = out@;
        let mut i: usize = 0;
        while i < self.children.len()
            invariant
                i <= self.children@.len(),
                self@.children == views(self.children@),
                out@ == rendered(first, self@, depth as nat, i as int),
            decreases self.children.len() - i,
        {
            let child = &self.children[i];
            assert(self@.children[i as int] == child@);
            let level: usize = if depth >= 4 {
                6
            } else {
                depth + 2
            };
            let ghost before = out@;
            let mut k: usize = 0;
            assert(before + hashes(0) =~= before);
            while k < level
                invariant
                    k <= level,
                    out@ == before + hashes(k as nat),
                decreases level - k,
            {
                out.push('#');
                k += 1;
                assert(out@ =~= before + hashes(k as nat));
            }
            out.append(" #");
            out.append(child.full_path.as_str());
            out.append("\n\n");
            if child.notes.len() > 0 {
                push_note_lines(out, &child.notes, "Hub: ", child.notes.len());
                out.append("\n");
            }
            assert(out@ == tag_text(before, child@, depth as nat));
            let next: usize = if depth >= 4 {
                depth
            } else {
                depth + 1
            };
            proof {
                if depth >= 4 {
                    lemma_deep(
                        out@,
                        child@,
                        depth as nat,
                        depth as nat + 1,
                        child@.children.len() as int,
                    );
                }
            }
            child.render_markdown(next, out);
            i += 1;
        }
    }
}

// ---------------------------------------------------------------------------
// What holds of every tree
// ---------------------------------------------------------------------------

/// The tags below every tag stand in the order of their names, no name twice.
pub open spec fn is_ordered(t: TaxonomyModel) -> bool
    decreases t,
{
    &&& forall|i: int, j: int|
        0 <= i < j < t.children.len() ==> text_lt(
            (#[trigger] t.children[i]).segment,
            (#[trigger] t.children[j]).segment,
        )
    &&& forall|i: int|
        0 <= i < t.children.len() ==> is_ordered(#[trigger] t.children[i])
}

/// The notes under the tag that the segments from `depth` on lead to.
pub open spec fn notes_at(t: TaxonomyModel, segments: Seq<Seq<char>>, depth: int) -> Seq<
    SummaryModel,
>
    decreases segments.len() - depth,
{
    if depth >= segments.len() {
        t.notes
    } else {
        let k = child_place(t.children, segments[depth], 0);
        if k < t.children.len() && t.children[k].segment == segments[depth] {
            notes_at(t.children[k], segments, depth + 1)
        } else {
            Seq::empty()
        }
    }
}

proof fn lemma_child_place(children: Seq<TaxonomyModel>, segment: Seq<char>, i: int)
    requires
        0 <= i <= children.len(),
    ensures
        i <= child_place(children, segment, i) <= children.len(),
        forall|j: int|
            i <= j < child_place(children, segment, i) ==> text_lt(
                (#[trigger] children[j]).segment,
                segment,
            ),
        child_place(children, segment, i) < children.len() ==> !text_lt(
            children[child_place(children, segment, i)].segment,
            segment,
        ),
    decreases children.len() - i,
{
    if i < children.len() && text_lt(children[i].segment, segment) {
        lemma_child_place(children, segment, i + 1);
    }
}

proof fn lemma_place_is(children: Seq<TaxonomyModel>, segment: Seq<char>, i: int, k: int)
    requires
        0 <= i <= k < children.len(),
        forall|j: int| i <= j < k ==> text_lt((#[trigger] children[j]).segment, segment),
        !text_lt(children[k].segment, segment),
    ensures
        child_place(children, segment, i) == k,
    decreases k - i,
{
    if i < k {
        assert(text_lt(children[i].segment, segment));
        lemma_place_is(children, segment, i + 1, k);
    }
}

/// Putting a note into a tree keeps the tags in order.
pub proof fn insertion_keeps_order(
    t: TaxonomyModel,
    segments: Seq<Seq<char>>,
    note: SummaryModel,
    depth: int,
)
    requires
        is_ordered(t),
        0 <= depth,
    ensures
        is_ordered(inserted(t, segments, note, depth)),
        inserted(t, segments, note, depth).segment == t.segment,
    decreases segments.len() - depth,
{
    if depth < segments.len() {
        let segment = segments[depth];
        let k = child_place(t.children, segment, 0);
        lemma_child_place(t.children, segment, 0);
        let r = inserted(t, segments, note, depth);
        if k < t.children.len() && t.children[k].segment == segment {
            insertion_keeps_order(t.children[k], segments, note, depth + 1);
            assert forall|i: int, j: int| 0 <= i < j < r.children.len() implies text_lt(
                (#[trigger] r.children[i]).segment,
                (#[trigger] r.children[j]).segment,
            ) by {
                assert(text_lt(t.children[i].segment, t.children[j].segment));
            }
            assert forall|i: int| 0 <= i < r.children.len() implies is_ordered(
                #[trigger] r.children[i],
            ) by {
                if i != k {
                    assert(r.children[i] == t.children[i]);
                }
            }
        } else {
            let child = bare(segment, join(segments.take(depth + 1), "/"@));
            assert(is_ordered(child));
            insertion_keeps_order(child, segments, note, depth + 1);
            assert forall|i: int, j: int| 0 <= i < j < r.children.len() implies text_lt(
                (#[trigger] r.children[i]).segment,
                (#[trigger] r.children[j]).segment,
            ) by {
                let a = if i < k {
                    i
                } else {
                    i - 1
                };
                let b = if j < k {
                    j
                } else {
                    j - 1
                };
                if i != k && j != k {
                    assert(r.children[i] == t.children[a] && r.children[j] == t.children[b]);
                } else if j == k {
                    assert(r.children[i] == t.children[i]);
                } else {
                    assert(r.children[j] == t.children[j - 1]);
                    crate::text::lemma_text_lt_total(t.children[k].segment, segment);
                    if j - 1 > k {
                        assert(text_lt(t.children[k].segment, t.children[j - 1].segment));
                        crate::text::lemma_text_lt_transitive(
                            segment,
                            t.children[k].segment,
                            t.children[j - 1].segment,
                        );
                    }
                }
            }
            assert forall|i: int| 0 <= i < r.children.len() implies is_ordered(
                #[trigger] r.children[i],
            ) by {
                if i < k {
                    assert(r.children[i] == t.children[i]);
                } else if i > k {
                    assert(r.children[i] == t.children[i - 1]);
                }
            }
        }
    }
}

/// A note that was put under a tag is found there, by its title.
pub proof fn inserted_note_is_found(
    t: TaxonomyModel,
    segments: Seq<Seq<char>>,
    note: SummaryModel,
    depth: int,
)
    requires
        0 <= depth,
    ensures
        exists|k: int|
            0 <= k < notes_at(inserted(t, segments, note, depth), segments, depth).len() && (
            #[trigger] notes_at(inserted(t, segments, note, depth), segments, depth)[k]).title
                == note.title,
    decreases segments.len() - depth,
{
    let r = inserted(t, segments, note, depth);
    if depth >= segments.len() {
        if exists|k: int| 0 <= k < t.notes.len() && (#[trigger] t.notes[k]).title == note.title {
            let k = choose|k: int|
                0 <= k < t.notes.len() && (#[trigger] t.notes[k]).title == note.title;
            assert(notes_at(r, segments, depth)[k].title == note.title);
        } else {
            assert(notes_at(r, segments, depth)[t.notes.len() as int].title == note.title);
        }
    } else {
        let segment = segments[depth];
        let k = child_place(t.children, segment, 0);
        lemma_child_place(t.children, segment, 0);
        let before = if k < t.children.len() && t.children[k].segment == segment {
            t.children[k]
        } else {
            bare(segment, join(segments.take(depth + 1), "/"@))
        };
        let child = inserted(before, segments, note, depth + 1);
        assert(r.children[k] == child);
        lemma_segment_kept(before, segments, note, depth + 1);
        crate::text::lemma_text_lt_irreflexive(segment);
        assert forall|j: int| 0 <= j < k implies text_lt(
            (#[trigger] r.children[j]).segment,
            segment,
        ) by {
            assert(r.children[j] == t.children[j]);
        }
        lemma_place_is(r.children, segment, 0, k);
        inserted_note_is_found(before, segments, note, depth + 1);
        assert(notes_at(r, segments, depth) == notes_at(child, segments, depth + 1));
    }
}

proof fn lemma_segment_kept(
    t: TaxonomyModel,
    segments: Seq<Seq<char>>,
    note: SummaryModel,
    depth: int,
)
    ensures
        inserted(t, segments, note, depth).segment == t.segment,
{
}

/// An index comes most central first: the ranks never rise, notes of one rank come in
/// the order of the alphabet, and every note is there once.
pub proof fn index_comes_most_central_first(notes: Seq<SummaryModel>)
    ensures
        by_rank(notes).to_multiset() == notes.to_multiset(),
        forall|i: int, j: int|
            0 <= i < j < by_rank(notes).len() ==> {
                &&& (#[trigger] by_rank(notes)[i]).pagerank.key >= (
                #[trigger] by_rank(notes)[j]).pagerank.key
                &&& by_rank(notes)[i].pagerank.key == by_rank(notes)[j].pagerank.key ==> !text_lt(
                    by_rank(notes)[j].title,
                    by_rank(notes)[i].title,
                )
            },
{
    let lt = |a: SummaryModel, b: SummaryModel| summary_before(a, b);
    index_order_is_order(notes);
    crate::sorting::sorted_keeps_items(notes, lt);
    let r = by_rank(notes);
    assert forall|i: int, j: int| 0 <= i < j < r.len() implies {
        &&& (#[trigger] r[i]).pagerank.key >= (#[trigger] r[j]).pagerank.key
        &&& r[i].pagerank.key == r[j].pagerank.key ==> !text_lt(r[j].title, r[i].title)
    } by {
        assert(!lt(r[j], r[i]));
    }
}

/// Ranking a tree ranks the notes of every tag and changes nothing else.
pub proof fn ranking_keeps_the_tree(t: TaxonomyModel, i: int)
    ensures
        ranked_tree(t).segment == t.segment,
        ranked_tree(t).full_path == t.full_path,
        ranked_tree(t).notes == by_rank(t.notes),
        ranked_tree(t).children.len() == t.children.len(),
        0 <= i < t.children.len() ==> ranked_tree(t).children[i] == ranked_tree(t.children[i]),
{
}

/// A tag's heading has one hash more than the one above it, from two hashes on and up to
/// six.
pub proof fn headings_deepen_with_tags(depth: nat)
    ensures
        2 <= hashes(heading_level(depth)).len() <= 6,
        hashes(heading_level(0)).len() == 2,
        depth < 4 ==> hashes(heading_level(depth + 1)).len() == hashes(heading_level(depth)).len()
            + 1,
        depth >= 4 ==> hashes(heading_level(depth)).len() == 6,
        forall|i: int|
            0 <= i < hashes(heading_level(depth)).len() ==> #[trigger] hashes(
                heading_level(depth),
            )[i] == '#',
{
}

/// A tag is written as a heading with its full path, and a line for each of its notes:
/// the title, the rank, and how many links lead to it and from it.
pub proof fn tag_is_written_with_its_notes(out: Seq<char>, t: TaxonomyModel, depth: nat)
    ensures
        t.notes.len() == 0 ==> tag_text(out, t, depth) == out + hashes(heading_level(depth)) + " #"@
            + t.full_path + "\n\n"@,
        t.notes.len() == 1 ==> tag_text(out, t, depth) == out + hashes(heading_level(depth)) + " #"@
            + t.full_path + "\n\n"@ + "- [["@ + t.notes[0].title + "]] · "@ + "Hub: "@
            + t.notes[0].pagerank.short + " (In: "@ + decimal(t.notes[0].in_degree as nat)
            + ", Out: "@ + decimal(t.notes[0].out_degree as nat) + ")\n"@ + "\n"@,
{
    let head = out + hashes(heading_level(depth)) + " #"@ + t.full_path + "\n\n"@;
    assert(note_lines(head, t.notes, "Hub: "@, 0) == head);
}

/// The lines of notes follow one another, one for each.
pub proof fn note_lines_follow_one_another(
    out: Seq<char>,
    notes: Seq<SummaryModel>,
    label: Seq<char>,
    n: int,
)
    requires
        0 <= n < notes.len(),
    ensures
        note_lines(out, notes, label, n + 1) == note_lines(out, notes, label, n) + "- [["@
            + notes[n].title + "]] · "@ + label + notes[n].pagerank.short + " (In: "@ + decimal(
            notes[n].in_degree as nat,
        ) + ", Out: "@ + decimal(notes[n].out_degree as nat) + ")\n"@,
        note_lines(out, notes, label, 0) == out,
{
}

/// The tags below a tag are written one behind the other, each followed by those below
/// it, one level deeper.
pub proof fn tags_are_written_depth_first(out: Seq<char>, t: TaxonomyModel, depth: nat, n: int)
    requires
        0 <= n < t.children.len(),
    ensures
        rendered(out, t, depth, n + 1) == rendered(
            tag_text(rendered(out, t, depth, n), t.children[n], depth),
            t.children[n],
            depth + 1,
            t.children[n].children.len() as int,
        ),
        rendered(out, t, depth, 0) == out,
{
}

/// Whether no two notes have one title.
pub open spec fn titles_differ(notes: Seq<SummaryModel>) -> bool {
    forall|i: int, j: int| 0 <= i < j < notes.len() ==> (#[trigger] notes[i]).title != (
    #[trigger] notes[j]).title
}

/// A tag lists a title once: a note is put behind the others unless one has its title
/// already.
pub proof fn tag_lists_a_title_once(notes: Seq<SummaryModel>, note: SummaryModel)
    requires
        titles_differ(notes),
    ensures
        titles_differ(with_note(notes, note)),
        notes.is_prefix_of(with_note(notes, note)),
        (exists|k: int| 0 <= k < notes.len() && (#[trigger] notes[k]).title == note.title)
            ==> with_note(notes, note) == notes,
        !(exists|k: int| 0 <= k < notes.len() && (#[trigger] notes[k]).title == note.title)
            ==> with_note(notes, note) == notes.push(note),
{
    let r = with_note(notes, note);
    assert(notes =~= r.take(notes.len() as int));
}

/// Whether the tags of a tree have the paths that lead to them: the segments from the
/// top, joined by slashes.
pub open spec fn has_paths(t: TaxonomyModel, way: Seq<Seq<char>>) -> bool
    decreases t,
{
    forall|i: int|
        0 <= i < t.children.len() ==> (#[trigger] t.children[i]).full_path == join(
            way.push(t.children[i].segment),
            "/"@,
        ) && has_paths(t.children[i], way.push(t.children[i].segment))
}

/// Putting a note into a tree keeps the paths of its tags: a new tag has the path that
/// leads to it.
pub proof fn insertion_keeps_paths(
    t: TaxonomyModel,
    segments: Seq<Seq<char>>,
    note: SummaryModel,
    depth: int,
)
    requires
        0 <= depth <= segments.len(),
        has_paths(t, segments.take(depth)),
    ensures
        has_paths(inserted(t, segments, note, depth), segments.take(depth)),
    decreases segments.len() - depth,
{
    let r = inserted(t, segments, note, depth);
    let way = segments.take(depth);
    if depth < segments.len() {
        let segment = segments[depth];
        let k = child_place(t.children, segment, 0);
        lemma_child_place(t.children, segment, 0);
        assert(segments.take(depth + 1) =~= way.push(segment));
        let known = k < t.children.len() && t.children[k].segment == segment;
        let before = if known {
            t.children[k]
        } else {
            bare(segment, join(segments.take(depth + 1), "/"@))
        };
        insertion_keeps_paths(before, segments, note, depth + 1);
        let child = inserted(before, segments, note, depth + 1);
        lemma_segment_kept(before, segments, note, depth + 1);
        lemma_path_kept(before, segments, note, depth + 1);
        assert forall|i: int| 0 <= i < r.children.len() implies (
        #[trigger] r.children[i]).full_path == join(way.push(r.children[i].segment), "/"@)
            && has_paths(r.children[i], way.push(r.children[i].segment)) by {
            if i == k {
                assert(r.children[i] == child);
            } else if known || i < k {
                assert(r.children[i] == t.children[i]);
            } else {
                assert(r.children[i] == t.children[i - 1]);
            }
        }
    } else {
        assert(r.children == t.children);
    }
}

proof fn lemma_path_kept(
    t: TaxonomyModel,
    segments: Seq<Seq<char>>,
    note: SummaryModel,
    depth: int,
)
    ensures
        inserted(t, segments, note, depth).full_path == t.full_path,
{
}

} // verus!
