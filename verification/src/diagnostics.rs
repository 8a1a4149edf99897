//! Link diagnostics: unresolved targets, broken anchors, and what was meant.

use crate::ast::{AstLink, DocumentModel, LinkModel, LinkType, ParsedDocument, SectionModel};
use crate::paths::{
    file_stem, find_last_before, key_beside, key_beside_text, last_before, path_file_stem, path_key,
    path_key_text, without_here, without_here_text,
};
use crate::picking::lemma_pick_push;
use crate::sections::{slug_of, slugify};
use crate::sorting::{lemma_sorted_views, sort_by, sorted_by};
use crate::text::{
    char_is_alphanumeric, chars_of, clone_opt, group_views, holds_str, is_alnum, join, lines_of,
    lowercase, opt_view, same, str_join, str_lines, str_trim, str_trim_start_char, string_range,
    to_lowercase, trim, trim_start_char, views,
};
use crate::typo::{eq_ignore_ascii_case, same_ignoring_case, TypoCorrectionEngine};
use vstd::hash_map::StringHashMap;
use vstd::prelude::*;

verus! {

// ---------------------------------------------------------------------------
// Reports
// ---------------------------------------------------------------------------

/// How much a finding matters.
#[derive(Debug, Clone, Copy, PartialEq, Eq, Structural)]
pub enum DiagnosticSeverity {
    Warning,
    Error,
    Info,
}

/// What is wrong with a link.
#[derive(Debug, Clone, Copy, PartialEq, Eq, Structural)]
pub enum DiagnosticCode {
    UnresolvedWikilink,
    BrokenHeadingAnchor,
    BrokenBlockReference,
    UnresolvedEmbed,
    DeadMarkdownLink,
}

impl DiagnosticCode {
    /// The code under which the finding is listed.
    pub open spec fn spec_code(&self) -> Seq<char> {
        match *self {
            DiagnosticCode::UnresolvedWikilink => "W001"@,
            DiagnosticCode::BrokenHeadingAnchor => "W002"@,
            DiagnosticCode::BrokenBlockReference => "W003"@,
            DiagnosticCode::UnresolvedEmbed => "W004"@,
            DiagnosticCode::DeadMarkdownLink => "W005"@,
        }
    }

    /// The finding in a few words.
    pub open spec fn spec_title(&self) -> Seq<char> {
        match *self {
            DiagnosticCode::UnresolvedWikilink => "unresolved wikilink"@,
            DiagnosticCode::BrokenHeadingAnchor => "broken heading anchor"@,
            DiagnosticCode::BrokenBlockReference => "broken block reference"@,
            DiagnosticCode::UnresolvedEmbed => "unresolved embed target"@,
            DiagnosticCode::DeadMarkdownLink => "dead markdown link"@,
        }
    }

    /// The code under which the finding is listed.
    pub fn code_str(&self) -> (r: &'static str)
        ensures
            r@ == self.spec_code(),
    {
        match self {
            DiagnosticCode::UnresolvedWikilink => "W001",
            DiagnosticCode::BrokenHeadingAnchor => "W002",
            DiagnosticCode::BrokenBlockReference => "W003",
            DiagnosticCode::UnresolvedEmbed => "W004",
            DiagnosticCode::DeadMarkdownLink => "W005",
        }
    }

    /// The finding in a few words.
    pub fn title(&self) -> (r: &'static str)
        ensures
            r@ == self.spec_title(),
    {
        match self {
            DiagnosticCode::UnresolvedWikilink => "unresolved wikilink",
            DiagnosticCode::BrokenHeadingAnchor => "broken heading anchor",
            DiagnosticCode::BrokenBlockReference => "broken block reference",
            DiagnosticCode::UnresolvedEmbed => "unresolved embed target",
            DiagnosticCode::DeadMarkdownLink => "dead markdown link",
        }
    }
}

/// Where a link stands.
#[derive(Debug)]
pub struct DiagnosticLocation {
    pub file_path: String,
    pub line_number: usize,
    pub col_start: usize,
    pub col_end: usize,
    pub source_line: String,
}

/// A finding.
#[derive(Debug)]
pub struct Diagnostic {
    pub code: DiagnosticCode,
    pub severity: DiagnosticSeverity,
    pub message: String,
    pub location: DiagnosticLocation,
    pub suggestion: Option<String>,
    pub notes: Vec<String>,
}

/// A note that is linked to and does not exist.
#[derive(Debug)]
pub struct WantedPage {
    pub target: String,
    pub reference_count: usize,
    pub referencing_files: Vec<String>,
    pub occurrences: Vec<DiagnosticLocation>,
    pub suggestions: Vec<String>,
}

/// All findings.
#[derive(Debug)]
pub struct DiagnosticsReport {
    pub total_files_scanned: usize,
    pub total_links_checked: usize,
    pub diagnostics: Vec<Diagnostic>,
    pub wanted_pages: Vec<WantedPage>,
}

/// What a `DiagnosticLocation` says.
pub struct LocationModel {
    pub file_path: Seq<char>,
    pub line_number: usize,
    pub col_start: usize,
    pub col_end: usize,
    pub source_line: Seq<char>,
}

/// What a `Diagnostic` says.
pub struct DiagnosticModel {
    pub code: DiagnosticCode,
    pub severity: DiagnosticSeverity,
    pub message: Seq<char>,
    pub location: LocationModel,
    pub suggestion: Option<Seq<char>>,
    pub notes: Seq<Seq<char>>,
}

/// What a `WantedPage` says.
pub struct WantedModel {
    pub target: Seq<char>,
    pub reference_count: nat,
    pub referencing_files: Seq<Seq<char>>,
    pub occurrences: Seq<LocationModel>,
    pub suggestions: Seq<Seq<char>>,
}

/// What a `DiagnosticsReport` says.
pub struct ReportModel {
    pub total_files_scanned: nat,
    pub total_links_checked: nat,
    pub diagnostics: Seq<DiagnosticModel>,
    pub wanted_pages: Seq<WantedModel>,
}

impl View for DiagnosticLocation {
    type V = LocationModel;

    open spec fn view(&self) -> LocationModel {
        LocationModel {
            file_path: self.file_path@,
            line_number: self.line_number,
            col_start: self.col_start,
            col_end: self.col_end,
            source_line: self.source_line@,
        }
    }
}

impl View for Diagnostic {
    type V = DiagnosticModel;

    open spec fn view(&self) -> DiagnosticModel {
        DiagnosticModel {
            code: self.code,
            severity: self.severity,
            message: self.message@,
            location: self.location@,
            suggestion: opt_view(self.suggestion),
            notes: views(self.notes@),
        }
    }
}

impl View for WantedPage {
    type V = WantedModel;

    open spec fn view(&self) -> WantedModel {
        WantedModel {
            target: self.target@,
            reference_count: self.reference_count as nat,
            referencing_files: views(self.referencing_files@),
            occurrences: views(self.occurrences@),
            suggestions: views(self.suggestions@),
        }
    }
}

impl View for DiagnosticsReport {
    type V = ReportModel;

    open spec fn view(&self) -> ReportModel {
        ReportModel {
            total_files_scanned: self.total_files_scanned as nat,
            total_links_checked: self.total_links_checked as nat,
            diagnostics: views(self.diagnostics@),
            wanted_pages: views(self.wanted_pages@),
        }
    }
}

/// How many of the findings have this severity.
pub open spec fn severity_count(ds: Seq<DiagnosticModel>, severity: DiagnosticSeverity) -> nat
    decreases ds.len(),
{
    if ds.len() == 0 {
        0
    } else {
        severity_count(ds.drop_last(), severity) + if ds.last().severity == severity {
            1nat
        } else {
            0nat
        }
    }
}

fn count_severity(ds: &Vec<Diagnostic>, severity: DiagnosticSeverity) -> (r: usize)
    ensures
        r == severity_count(views(ds@), severity),
{
    let ghost all = views(ds@);
    let mut n: usize = 0;
    let mut i: usize = 0;
    while i < ds.len()
        invariant
            i <= ds@.len(),
            all == views(ds@),
            n <= i,
            n == severity_count(all.take(i as int), severity),
        decreases ds.len() - i,
    {
        assert(all.take(i as int + 1).drop_last() =~= all.take(i as int));
        if ds[i].severity == severity {
            n += 1;
        }
        i += 1;
    }
    assert(all.take(i as int) =~= all);
    n
}

impl DiagnosticsReport {
    /// How many findings are warnings.
    pub fn warning_count(&self) -> (r: usize)
        ensures
            r == severity_count(self@.diagnostics, DiagnosticSeverity::Warning),
    {
        count_severity(&self.diagnostics, DiagnosticSeverity::Warning)
    }

    /// How many findings are errors.
    pub fn error_count(&self) -> (r: usize)
        ensures
            r == severity_count(self@.diagnostics, DiagnosticSeverity::Error),
    {
        count_severity(&self.diagnostics, DiagnosticSeverity::Error)
    }
}

// ---------------------------------------------------------------------------
// What is known of each note
// ---------------------------------------------------------------------------

/// What links to a note can point at.
#[derive(Debug)]
pub struct NoteTargets {
    pub path: String,
    pub title: String,
    pub headings: Vec<String>,
    pub block_ids: Vec<String>,
}

/// What a `NoteTargets` says.
pub struct NoteTargetsModel {
    pub path: Seq<char>,
    pub title: Seq<char>,
    pub headings: Seq<Seq<char>>,
    pub block_ids: Seq<Seq<char>>,
}

impl View for NoteTargets {
    type V = NoteTargetsModel;

    open spec fn view(&self) -> NoteTargetsModel {
        NoteTargetsModel {
            path: self.path@,
            title: self.title@,
            headings: views(self.headings@),
            block_ids: views(self.block_ids@),
        }
    }
}

/// A character that a block identifier may hold.
pub open spec fn is_block_char(c: char) -> bool {
    is_alnum(c) || c == '-' || c == '_'
}

/// The block identifier that a line ends in: what stands behind its last caret.
pub open spec fn block_id_of(line: Seq<char>) -> Option<Seq<char>> {
    let k = last_before(line, '^', line.len() as int);
    if k < 0 {
        None
    } else {
        let id = trim(line.skip(k + 1));
        if id.len() > 0 && (forall|i: int| 0 <= i < id.len() ==> is_block_char(#[trigger] id[i])) {
            Some(id)
        } else {
            None
        }
    }
}

/// The list with the text, which it holds once.
pub open spec fn with_once(list: Seq<Seq<char>>, s: Seq<char>) -> Seq<Seq<char>> {
    if list.contains(s) {
        list
    } else {
        list.push(s)
    }
}

/// The list with the block identifiers of the lines.
pub open spec fn with_line_blocks(list: Seq<Seq<char>>, lines: Seq<Seq<char>>) -> Seq<Seq<char>>
    decreases lines.len(),
{
    if lines.len() == 0 {
        list
    } else {
        let before = with_line_blocks(list, lines.drop_last());
        match block_id_of(lines.last()) {
            Some(id) => with_once(before, id),
            None => before,
        }
    }
}

/// The block identifiers of the sections, each once.
pub open spec fn blocks_of(sections: Seq<SectionModel>) -> Seq<Seq<char>>
    decreases sections.len(),
{
    if sections.len() == 0 {
        Seq::empty()
    } else {
        with_line_blocks(
            blocks_of(sections.drop_last()),
            lines_of(sections.last().content),
        )
    }
}

/// What links to a note can point at.
pub open spec fn targets_of(doc: DocumentModel) -> NoteTargetsModel {
    NoteTargetsModel {
        path: doc.path,
        title: doc.title,
        headings: doc.sections.map_values(|s: SectionModel| s.heading),
        block_ids: blocks_of(doc.sections),
    }
}

fn block_id(line: &str) -> (r: Option<String>)
    ensures
        opt_view(r) == block_id_of(line@),
{
    let v = chars_of(line);
    let n: usize = v.len();
    match find_last_before(&v, '^') {
        None => None,
        Some(k) => {
            let rest = string_range(&v, k + 1, n);
            assert(rest@ =~= line@.skip(k + 1));
            let id = str_trim(rest.as_str());
            if id.as_str().is_empty() {
                return None;
            }
            let w = chars_of(id.as_str());
            let mut i: usize = 0;
            while i < w.len()
                invariant
                    i <= w@.len(),
                    w@ == id@,
                    id@ == trim(line@.skip(k + 1)),
                    k == last_before(line@, '^', line@.len() as int),
                    forall|j: int| 0 <= j < i ==> is_block_char(#[trigger] id@[j]),
                decreases w.len() - i,
            {
                let c = w[i];
                if !(char_is_alphanumeric(c) || c == '-' || c == '_') {
                    assert(!is_block_char(id@[i as int]));
                    return None;
                }
                i += 1;
            }
            Some(id)
        },
    }
}

/// Adds a text that is not in the list yet.
pub fn push_once(list: &mut Vec<String>, s: &str)
    ensures
        views(final(list)@) == with_once(views(old(list)@), s@),
{
    broadcast use group_views;

    if !holds_str(list, s) {
        list.push(s.to_owned());
    }
}

fn note_targets(doc: &ParsedDocument) -> (r: NoteTargets)
    ensures
        r@ == targets_of(doc@),
{
    broadcast use group_views;

    let ghost all = views(doc.sections@);
    let ghost heads = all.map_values(|s: SectionModel| s.heading);
    let mut headings: Vec<String> = Vec::new();
    let mut block_ids: Vec<String> = Vec::new();
    let mut i: usize = 0;
    while i < doc.sections.len()
        invariant
            i <= doc.sections@.len(),
            all == views(doc.sections@),
            heads == all.map_values(|s: SectionModel| s.heading),
            views(headings@) == heads.take(i as int),
            views(block_ids@) == blocks_of(all.take(i as int)),
        decreases doc.sections.len() - i,
    {
        let sec = &doc.sections[i];
        assert(all[i as int] == sec@);
        assert(all.take(i as int + 1).drop_last() =~= all.take(i as int));
        let lines = str_lines(sec.content.as_str());
        let ghost ls = views(lines@);
        let ghost first = views(block_ids@);
        let mut k: usize = 0;
        assert(ls.take(0) =~= Seq::empty());
        while k < lines.len()
            invariant
                k <= lines@.len(),
                ls == views(lines@),
                views(block_ids@) == with_line_blocks(first, ls.take(k as int)),
            decreases lines.len() - k,
        {
            assert(ls.take(k as int + 1).drop_last() =~= ls.take(k as int));
            if let Some(id) = block_id(lines[k].as_str()) {
                push_once(&mut block_ids, id.as_str());
            }
            k += 1;
        }
        assert(ls.take(k as int) =~= ls);
        headings.push(sec.heading.clone());
        i += 1;
        assert(heads.take(i as int) =~= heads.take(i as int - 1).push(heads[i as int - 1]));
    }
    assert(all.take(i as int) =~= all);
    assert(heads.take(i as int) =~= heads);
    NoteTargets { path: doc.path.clone(), title: doc.title.clone(), headings, block_ids }
}

// ---------------------------------------------------------------------------
// The engine
// ---------------------------------------------------------------------------

/// Checks the links of notes against the notes that were indexed.
pub struct DiagnosticsEngine {
    typo_engine: TypoCorrectionEngine,
    notes: Vec<NoteTargets>,
    by_path: StringHashMap<usize>,
    by_title: StringHashMap<usize>,
    by_alias: StringHashMap<usize>,
    by_stem: StringHashMap<usize>,
    aliases: Vec<String>,
}

/// What a `DiagnosticsEngine` knows: the notes, and which of them each path
/// key, title, alias and file stem names. All but the path keys are in lower
/// case. The aliases are listed too, in the order in which they came.
pub struct EngineModel {
    pub typo: TypoCorrectionEngine,
    pub notes: Seq<NoteTargetsModel>,
    pub by_path: Map<Seq<char>, usize>,
    pub by_title: Map<Seq<char>, usize>,
    pub by_alias: Map<Seq<char>, usize>,
    pub by_stem: Map<Seq<char>, usize>,
    pub aliases: Seq<Seq<char>>,
}

impl View for DiagnosticsEngine {
    type V = EngineModel;

    closed spec fn view(&self) -> EngineModel {
        EngineModel {
            typo: self.typo_engine,
            notes: views(self.notes@),
            by_path: self.by_path@,
            by_title: self.by_title@,
            by_alias: self.by_alias@,
            by_stem: self.by_stem@,
            aliases: views(self.aliases@),
        }
    }
}

/// Every name leads to a note.
pub open spec fn in_range(m: Map<Seq<char>, usize>, n: nat) -> bool {
    forall|k: Seq<char>| #[trigger] m.contains_key(k) ==> m[k] < n
}

impl EngineModel {
    /// Every name leads to a note, the notes have different paths, and each is
    /// found under its own.
    pub open spec fn wf(self) -> bool {
        &&& in_range(self.by_path, self.notes.len())
        &&& in_range(self.by_title, self.notes.len())
        &&& in_range(self.by_alias, self.notes.len())
        &&& in_range(self.by_stem, self.notes.len())
        &&& forall|i: int|
            0 <= i < self.notes.len() ==> self.by_path.contains_key(
                path_key(#[trigger] self.notes[i].path),
            ) && self.by_path[path_key(self.notes[i].path)] == i
        &&& forall|k: Seq<char>| #[trigger]
            self.by_path.contains_key(k) ==> path_key(self.notes[self.by_path[k] as int].path) == k
        &&& self.aliases.no_duplicates()
        &&& forall|k: Seq<char>| #[trigger] self.by_alias.contains_key(k) <==> self.aliases.contains(k)
    }

    /// The engine with the names leading to note `n`.
    pub open spec fn with_aliases(self, names: Seq<Seq<char>>, n: usize) -> EngineModel
        decreases names.len(),
    {
        if names.len() == 0 {
            self
        } else {
            let before = self.with_aliases(names.drop_last(), n);
            let low = lowercase(names.last());
            EngineModel {
                by_alias: before.by_alias.insert(low, n),
                aliases: with_once(before.aliases, low),
                ..before
            }
        }
    }

    /// The engine once it has seen a note. A note takes the place of an earlier
    /// one with the same path; its names lead to it from now on.
    pub open spec fn indexed(self, doc: DocumentModel) -> EngineModel {
        let key = path_key(doc.path);
        let known = self.by_path.contains_key(key);
        let n = if known {
            self.by_path[key]
        } else {
            self.notes.len() as usize
        };
        let stem = match file_stem(doc.path) {
            Some(s) => s,
            None => Seq::empty(),
        };
        EngineModel {
            typo: self.typo,
            notes: if known {
                self.notes.update(n as int, targets_of(doc))
            } else {
                self.notes.push(targets_of(doc))
            },
            by_path: self.by_path.insert(key, n),
            by_title: self.by_title.insert(lowercase(doc.title), n),
            by_stem: self.by_stem.insert(lowercase(stem), n),
            ..self.with_aliases(doc.frontmatter.aliases, n)
        }
    }

    /// The note at a path.
    pub open spec fn at_path(self, key: Seq<char>) -> Option<usize> {
        if self.by_path.contains_key(key) {
            Some(self.by_path[key])
        } else {
            None
        }
    }

    /// The note that a link target names for a reader of the note at `from`:
    /// by its path, with or without `.md`, from the top of the vault or from the
    /// directory of `from`; else by its title, an alias or its file stem,
    /// without regard to case.
    pub open spec fn resolve(self, from: Option<Seq<char>>, target: Seq<char>) -> Option<usize> {
        let clean = trim(crate::links::trim_end_str(target, ".md"@));
        let plain = without_here(clean);
        let with_md = plain + ".md"@;
        let low = lowercase(clean);
        let beside = match from {
            Some(source) => key_beside(source, plain),
            None => None,
        };
        let beside_md = match from {
            Some(source) => key_beside(source, with_md),
            None => None,
        };
        if clean.len() == 0 {
            None
        } else if self.by_path.contains_key(path_key(plain)) {
            Some(self.by_path[path_key(plain)])
        } else if self.by_path.contains_key(path_key(with_md)) {
            Some(self.by_path[path_key(with_md)])
        } else if beside is Some && self.by_path.contains_key(beside.unwrap()) {
            Some(self.by_path[beside.unwrap()])
        } else if beside_md is Some && self.by_path.contains_key(beside_md.unwrap()) {
            Some(self.by_path[beside_md.unwrap()])
        } else if self.by_title.contains_key(low) {
            Some(self.by_title[low])
        } else if self.by_alias.contains_key(low) {
            Some(self.by_alias[low])
        } else if self.by_stem.contains_key(low) {
            Some(self.by_stem[low])
        } else {
            None
        }
    }

    /// The names that can be suggested: titles, then aliases in lower case,
    /// each once.
    pub open spec fn known_targets(self) -> Seq<Seq<char>> {
        all_once(self.notes.map_values(|n: NoteTargetsModel| n.title) + self.aliases)
    }
}

/// The texts in their order, each once.
pub open spec fn all_once(s: Seq<Seq<char>>) -> Seq<Seq<char>>
    decreases s.len(),
{
    if s.len() == 0 {
        Seq::empty()
    } else {
        with_once(all_once(s.drop_last()), s.last())
    }
}

/// What is kept once is everything that is in the list and nothing else, and nothing
/// twice.
pub proof fn once_keeps_everything(s: Seq<Seq<char>>)
    ensures
        all_once(s).no_duplicates(),
        forall|x: Seq<char>| #[trigger] all_once(s).contains(x) <==> s.contains(x),
    decreases s.len(),
{
    let r = all_once(s);
    if s.len() > 0 {
        let rest = s.drop_last();
        let before = all_once(rest);
        once_keeps_everything(rest);
        assert forall|x: Seq<char>| #[trigger] r.contains(x) <==> s.contains(x) by {
            if s.contains(x) {
                let k = choose|k: int| 0 <= k < s.len() && s[k] == x;
                if k < rest.len() {
                    assert(rest[k] == x);
                    assert(before.contains(x));
                    let i = choose|i: int| 0 <= i < before.len() && before[i] == x;
                    assert(r[i] == x);
                } else if !before.contains(x) {
                    assert(r[before.len() as int] == x);
                }
            }
            if r.contains(x) {
                let i = choose|i: int| 0 <= i < r.len() && r[i] == x;
                if i < before.len() {
                    assert(before[i] == x);
                    assert(before.contains(x));
                    let k = choose|k: int| 0 <= k < rest.len() && rest[k] == x;
                    assert(s[k] == x);
                } else {
                    assert(s[s.len() - 1] == x);
                }
            }
        }
    }
}

/// What is kept once comes in the order in which it first came: what is added to a list
/// comes behind what was there.
pub proof fn once_keeps_the_order(s: Seq<Seq<char>>, t: Seq<Seq<char>>)
    ensures
        all_once(s).is_prefix_of(all_once(s + t)),
    decreases t.len(),
{
    if t.len() == 0 {
        assert(s + t =~= s);
    } else {
        once_keeps_the_order(s, t.drop_last());
        assert((s + t).drop_last() =~= s + t.drop_last());
    }
}

impl DiagnosticsEngine {
    /// An engine that knows no note.
    pub fn new() -> (r: Self)
        ensures
            r@.wf(),
            r@.notes.len() == 0,
            r@.by_path == Map::<Seq<char>, usize>::empty(),
            r@.by_title == Map::<Seq<char>, usize>::empty(),
            r@.by_alias == Map::<Seq<char>, usize>::empty(),
            r@.by_stem == Map::<Seq<char>, usize>::empty(),
            r@.aliases.len() == 0,
            r@.typo.max_edit_distance == 3,
            r@.typo.min_similarity_permille == 600,
    {
        DiagnosticsEngine {
            typo_engine: TypoCorrectionEngine::default(),
            notes: Vec::new(),
            by_path: StringHashMap::new(),
            by_title: StringHashMap::new(),
            by_alias: StringHashMap::new(),
            by_stem: StringHashMap::new(),
            aliases: Vec::new(),
        }
    }

    fn index_aliases(&mut self, names: &Vec<String>, n: usize)
        ensures
            final(self)@ == old(self)@.with_aliases(views(names@), n),
    {
        let ghost all = views(names@);
        let ghost first = self@;
        let mut i: usize = 0;
        assert(all.take(0) =~= Seq::empty());
        while i < names.len()
            invariant
                i <= names@.len(),
                all == views(names@),
                self@ == first.with_aliases(all.take(i as int), n),
            decreases names.len() - i,
        {
            assert(all.take(i as int + 1).drop_last() =~= all.take(i as int));
            let low = to_lowercase(names[i].as_str());
            push_once(&mut self.aliases, low.as_str());
            self.by_alias.insert(low, n);
            i += 1;
        }
        assert(all.take(i as int) =~= all);
    }

    /// Takes a note in.
    pub fn index_document(&mut self, doc: &ParsedDocument)
        requires
            old(self)@.wf(),
        ensures
            final(self)@ == old(self)@.indexed(doc@),
            final(self)@.wf(),
    {
        broadcast use group_views;

        let ghost first = self@;
        let stem = match path_file_stem(doc.path.as_str()) {
            Some(s) => s,
            None => String::new(),
        };
        let key = path_key_text(doc.path.as_str());
        let targets = note_targets(doc);
        let place: Option<usize> = match self.by_path.get(key.as_str()) {
            Some(p) => Some(*p),
            None => None,
        };
        let count: usize = self.notes.len();
        let n: usize = match place {
            Some(p) => p,
            None => count,
        };
        proof {
            lemma_with_aliases(first, views(doc.frontmatter.aliases@), n);
            lemma_indexed_wf(first, doc@);
        }
        self.index_aliases(&doc.frontmatter.aliases, n);
        let ghost notes0 = self.notes@;
        match place {
            Some(p) => {
                self.notes.set(p, targets);
                assert(views(self.notes@) =~= views(notes0).update(p as int, targets_of(doc@)));
            },
            None => {
                self.notes.push(targets);
            },
        }
        self.by_stem.insert(to_lowercase(stem.as_str()), n);
        self.by_title.insert(to_lowercase(doc.title.as_str()), n);
        self.by_path.insert(key, n);
        assert(stem@ == match file_stem(doc@.path) {
            Some(s) => s,
            None => Seq::empty(),
        });
    }

    fn lookup(&self, key: &str) -> (r: Option<usize>)
        ensures
            r == self@.at_path(key@),
    {
        match self.by_path.get(key) {
            Some(p) => Some(*p),
            None => None,
        }
    }

    fn resolve_index(&self, from: Option<&str>, target: &str) -> (r: Option<usize>)
        ensures
            r == self@.resolve(
                match from {
                    Some(s) => Some(s@),
                    None => None,
                },
                target@,
            ),
    {
        proof {
            reveal_strlit(".md");
        }
        let bare = crate::links::trim_end_text(target, ".md");
        let clean = str_trim(bare.as_str());
        if clean.as_str().is_empty() {
            return None;
        }
        let plain = without_here_text(clean.as_str());
        let key = path_key_text(plain.as_str());
        if let Some(i) = self.lookup(key.as_str()) {
            return Some(i);
        }
        let mut with_md = plain.clone();
        with_md.append(".md");
        let key_md = path_key_text(with_md.as_str());
        if let Some(i) = self.lookup(key_md.as_str()) {
            return Some(i);
        }
        if let Some(source) = from {
            if let Some(beside) = key_beside_text(source, plain.as_str()) {
                if let Some(i) = self.lookup(beside.as_str()) {
                    return Some(i);
                }
            }
            if let Some(beside_md) = key_beside_text(source, with_md.as_str()) {
                if let Some(i) = self.lookup(beside_md.as_str()) {
                    return Some(i);
                }
            }
        }
        let low = to_lowercase(clean.as_str());
        if let Some(i) = self.by_title.get(low.as_str()) {
            return Some(*i);
        }
        if let Some(i) = self.by_alias.get(low.as_str()) {
            return Some(*i);
        }
        match self.by_stem.get(low.as_str()) {
            Some(i) => Some(*i),
            None => None,
        }
    }

    /// The path of the note that a link target names.
    pub fn resolve_target(&self, from_doc_path: Option<&str>, target: &str) -> (r: Option<&String>)
        requires
            self@.wf(),
        ensures
            match (
                r,
                self@.resolve(
                    match from_doc_path {
                        Some(s) => Some(s@),
                        None => None,
                    },
                    target@,
                ),
            ) {
                (Some(path), Some(i)) => i < self@.notes.len() && path@ == self@.notes[i as int].path,
                (None, None) => true,
                _ => false,
            },
    {
        match self.resolve_index(from_doc_path, target) {
            Some(i) => {
                assert(i < self@.notes.len());
                assert(views(self.notes@)[i as int] == self.notes@[i as int]@);
                Some(&self.notes[i].path)
            },
            None => None,
        }
    }

    /// The names that can be suggested.
    pub fn all_known_targets(&self) -> (r: Vec<String>)
        ensures
            views(r@) == self@.known_targets(),
    {
        broadcast use group_views;

        let ghost titles = self@.notes.map_values(|n: NoteTargetsModel| n.title);
        let ghost all = titles + self@.aliases;
        let mut out: Vec<String> = Vec::new();
        let mut i: usize = 0;
        assert(all.take(0) =~= Seq::empty());
        while i < self.notes.len()
            invariant
                i <= self.notes@.len(),
                titles == self@.notes.map_values(|n: NoteTargetsModel| n.title),
                all == titles + self@.aliases,
                views(out@) == all_once(all.take(i as int)),
            decreases self.notes.len() - i,
        {
            assert(all.take(i as int + 1).drop_last() =~= all.take(i as int));
            assert(all[i as int] == self.notes@[i as int].title@);
            push_once(&mut out, self.notes[i].title.as_str());
            i += 1;
        }
        let ghost base = titles.len();
        let mut k: usize = 0;
        while k < self.aliases.len()
            invariant
                k <= self.aliases@.len(),
                base == titles.len(),
                all == titles + self@.aliases,
                views(out@) == all_once(all.take(base + k)),
            decreases self.aliases.len() - k,
        {
            assert(all.take(base + k + 1).drop_last() =~= all.take(base + k));
            assert(all[base + k] == self.aliases@[k as int]@);
            push_once(&mut out, self.aliases[k].as_str());
            k += 1;
        }
        assert(all.take(base + k) =~= all);
        out
    }
}

impl Default for DiagnosticsEngine {
    fn default() -> (r: Self)
        ensures
            r@.wf(),
            r@.notes.len() == 0,
    {
        DiagnosticsEngine::new()
    }
}

/// New aliases only touch the aliases, and lead to the note.
proof fn lemma_with_aliases(m: EngineModel, names: Seq<Seq<char>>, n: usize)
    requires
        m.aliases.no_duplicates(),
        forall|k: Seq<char>| #[trigger] m.by_alias.contains_key(k) <==> m.aliases.contains(k),
    ensures
        ({
            let r = m.with_aliases(names, n);
            &&& r.typo == m.typo
            &&& r.notes == m.notes
            &&& r.by_path == m.by_path
            &&& r.by_title == m.by_title
            &&& r.by_stem == m.by_stem
            &&& r.aliases.no_duplicates()
            &&& forall|k: Seq<char>| #[trigger]
                r.by_alias.contains_key(k) <==> r.aliases.contains(k)
            &&& forall|k: Seq<char>| #[trigger]
                r.by_alias.contains_key(k) ==> r.by_alias[k] == n || (m.by_alias.contains_key(k)
                    && r.by_alias[k] == m.by_alias[k])
        }),
    decreases names.len(),
{
    if names.len() > 0 {
        lemma_with_aliases(m, names.drop_last(), n);
        let before = m.with_aliases(names.drop_last(), n);
        let r = m.with_aliases(names, n);
        let low = lowercase(names.last());
        assert forall|k: Seq<char>| #[trigger] r.by_alias.contains_key(k) <==> r.aliases.contains(
            k,
        ) by {
            if before.aliases.contains(low) {
            } else {
                assert(r.aliases == before.aliases.push(low));
                assert(r.aliases[before.aliases.len() as int] == low);
                if before.aliases.contains(k) {
                    let p = choose|p: int| 0 <= p < before.aliases.len() && before.aliases[p] == k;
                    assert(r.aliases[p] == k);
                }
            }
        }
    }
}

proof fn lemma_indexed_wf(m: EngineModel, doc: DocumentModel)
    requires
        m.wf(),
        m.notes.len() <= usize::MAX,
    ensures
        m.indexed(doc).wf(),
{
    let r = m.indexed(doc);
    let key = path_key(doc.path);
    let n = if m.by_path.contains_key(key) {
        m.by_path[key]
    } else {
        m.notes.len() as usize
    };
    lemma_with_aliases(m, doc.frontmatter.aliases, n);
    assert forall|i: int| 0 <= i < r.notes.len() implies r.by_path.contains_key(
        path_key(#[trigger] r.notes[i].path),
    ) && r.by_path[path_key(r.notes[i].path)] == i by {
        if i != n {
            assert(r.notes[i] == m.notes[i]);
            assert(m.by_path.contains_key(path_key(m.notes[i].path)));
        }
    }
}

// ---------------------------------------------------------------------------
// Checking links
// ---------------------------------------------------------------------------

/// Where a link stands: its line, and its first and last byte in the line.
pub open spec fn location_of(doc: DocumentModel, link: LinkModel) -> LocationModel {
    LocationModel {
        file_path: doc.path,
        line_number: link.line_number,
        col_start: link.col_start,
        col_end: link.col_end,
        source_line: match link.context_snippet {
            Some(s) => s,
            None => Seq::empty(),
        },
    }
}

/// The finding code of an unresolved link.
pub open spec fn unresolved_code(t: LinkType) -> DiagnosticCode {
    match t {
        LinkType::Wikilink => DiagnosticCode::UnresolvedWikilink,
        LinkType::Embed => DiagnosticCode::UnresolvedEmbed,
        LinkType::Markdown => DiagnosticCode::DeadMarkdownLink,
    }
}

/// The first of the texts, put between `a` and `b`.
pub open spec fn first_between(s: Seq<Seq<char>>, a: Seq<char>, b: Seq<char>) -> Option<Seq<char>> {
    if s.len() > 0 {
        Some(a + s[0] + b)
    } else {
        None
    }
}

/// Whether a link has no target and so points into its own note.
pub open spec fn is_self_link(link: LinkModel) -> bool {
    trim(link.target_note).len() == 0
}

/// How a corrected link into the target of `link` begins.
pub open spec fn link_opening(link: LinkModel, mark: Seq<char>) -> Seq<char> {
    if is_self_link(link) {
        "[["@ + mark
    } else {
        "[["@ + link.target_note + mark
    }
}

/// The heading that a link points at, without the hash that may lead it.
pub open spec fn clean_heading(h: Seq<char>) -> Seq<char> {
    trim_start_char(trim(h), '#')
}

/// The block that a link points at, without the caret that may lead it.
pub open spec fn clean_block(b: Seq<char>) -> Seq<char> {
    trim_start_char(trim(b), '^')
}

/// Whether a note has a heading: one that is the same up to case, or has the
/// same slug.
pub open spec fn has_heading(headings: Seq<Seq<char>>, wanted: Seq<char>) -> bool {
    exists|k: int|
        0 <= k < headings.len() && (same_ignoring_case(#[trigger] headings[k], wanted) || slug_of(
            headings[k],
        ) == slug_of(wanted))
}

/// How grave it is that a link's target does not exist: in a strict check an error.
pub open spec fn severity_in(strict: bool) -> DiagnosticSeverity {
    if strict {
        DiagnosticSeverity::Error
    } else {
        DiagnosticSeverity::Warning
    }
}

fn severity(strict: bool) -> (r: DiagnosticSeverity)
    ensures
        r == severity_in(strict),
{
    if strict {
        DiagnosticSeverity::Error
    } else {
        DiagnosticSeverity::Warning
    }
}

/// What is found of the heading that a link points at.
pub open spec fn heading_finding(
    typo: TypoCorrectionEngine,
    note: NoteTargetsModel,
    doc: DocumentModel,
    link: LinkModel,
) -> Option<DiagnosticModel> {
    match link.target_heading {
        None => None,
        Some(h) => {
            let wanted = clean_heading(h);
            if has_heading(note.headings, wanted) {
                None
            } else {
                Some(
                    DiagnosticModel {
                        code: DiagnosticCode::BrokenHeadingAnchor,
                        severity: DiagnosticSeverity::Warning,
                        message: "heading anchor '#"@ + wanted + "' not found in note '"@
                            + note.title + "'"@,
                        location: location_of(doc, link),
                        suggestion: first_between(
                            typo.suggestions(wanted, note.headings),
                            link_opening(link, "#"@),
                            "]]"@,
                        ),
                        notes: seq!["available headings: "@ + join(note.headings, ", "@)],
                    },
                )
            }
        },
    }
}

/// What is found of the block that a link points at.
pub open spec fn block_finding(
    typo: TypoCorrectionEngine,
    note: NoteTargetsModel,
    doc: DocumentModel,
    link: LinkModel,
) -> Option<DiagnosticModel> {
    match link.target_block {
        None => None,
        Some(b) => {
            let wanted = clean_block(b);
            if note.block_ids.contains(wanted) {
                None
            } else {
                Some(
                    DiagnosticModel {
                        code: DiagnosticCode::BrokenBlockReference,
                        severity: DiagnosticSeverity::Warning,
                        message: "block reference '^"@ + wanted + "' not found in note '"@
                            + note.title + "'"@,
                        location: location_of(doc, link),
                        suggestion: first_between(
                            typo.suggestions(wanted, note.block_ids),
                            link_opening(link, "#^"@),
                            "]]"@,
                        ),
                        notes: seq!["existing block ids: "@ + join(note.block_ids, ", "@)],
                    },
                )
            }
        },
    }
}

/// The list with what was found, if anything.
pub open spec fn with_found(ds: Seq<DiagnosticModel>, d: Option<DiagnosticModel>) -> Seq<
    DiagnosticModel,
> {
    match d {
        Some(d) => ds.push(d),
        None => ds,
    }
}

/// What is said of a link whose target does not exist.
pub open spec fn unresolved_finding(
    suggestions: Seq<Seq<char>>,
    doc: DocumentModel,
    link: LinkModel,
    strict: bool,
) -> DiagnosticModel {
    DiagnosticModel {
        code: unresolved_code(link.link_type),
        severity: severity_in(strict),
        message: "target note '"@ + link.target_note + "' does not exist in vault"@,
        location: location_of(doc, link),
        suggestion: first_between(suggestions, "[["@, "]]"@),
        notes: Seq::empty(),
    }
}

/// The first page from `i` on that is wanted under this name, or the length.
pub open spec fn wanted_index(ws: Seq<WantedModel>, target: Seq<char>, i: int) -> int
    decreases ws.len() - i,
{
    if i >= ws.len() {
        ws.len() as int
    } else if ws[i].target == target {
        i
    } else {
        wanted_index(ws, target, i + 1)
    }
}

/// Whether one of the files has this path.
pub open spec fn holds_path(files: Seq<Seq<char>>, path: Seq<char>) -> bool {
    exists|k: int| 0 <= k < files.len() && path_key(#[trigger] files[k]) == path_key(path)
}

/// The wanted pages with one more reference.
pub open spec fn with_wanted(
    ws: Seq<WantedModel>,
    target: Seq<char>,
    at: LocationModel,
    suggestions: Seq<Seq<char>>,
) -> Seq<WantedModel> {
    let i = wanted_index(ws, target, 0);
    if i < ws.len() {
        let w = ws[i];
        ws.update(
            i,
            WantedModel {
                target,
                reference_count: w.occurrences.len() + 1,
                referencing_files: if holds_path(w.referencing_files, at.file_path) {
                    w.referencing_files
                } else {
                    w.referencing_files.push(at.file_path)
                },
                occurrences: w.occurrences.push(at),
                suggestions: w.suggestions,
            },
        )
    } else {
        ws.push(
            WantedModel {
                target,
                reference_count: 1,
                referencing_files: seq![at.file_path],
                occurrences: seq![at],
                suggestions,
            },
        )
    }
}

/// How far a check has come.
pub struct ScanModel {
    pub diagnostics: Seq<DiagnosticModel>,
    pub wanted: Seq<WantedModel>,
    pub links: nat,
}

impl EngineModel {
    /// The note that a link points at.
    pub open spec fn target_of(self, doc: DocumentModel, link: LinkModel) -> Option<usize> {
        if is_self_link(link) {
            self.at_path(path_key(doc.path))
        } else {
            self.resolve(Some(doc.path), link.target_note)
        }
    }

    /// The check with one more link.
    pub open spec fn with_link(
        self,
        at: ScanModel,
        doc: DocumentModel,
        link: LinkModel,
        strict: bool,
    ) -> ScanModel {
        match self.target_of(doc, link) {
            None => {
                let suggestions = self.typo.suggestions(link.target_note, self.known_targets());
                ScanModel {
                    diagnostics: at.diagnostics.push(
                        unresolved_finding(suggestions, doc, link, strict),
                    ),
                    wanted: with_wanted(
                        at.wanted,
                        link.target_note,
                        location_of(doc, link),
                        suggestions,
                    ),
                    links: at.links + 1,
                }
            },
            Some(n) => ScanModel {
                diagnostics: with_found(
                    with_found(
                        at.diagnostics,
                        heading_finding(self.typo, self.notes[n as int], doc, link),
                    ),
                    block_finding(self.typo, self.notes[n as int], doc, link),
                ),
                wanted: at.wanted,
                links: at.links + 1,
            },
        }
    }

    /// The check with these links of a note.
    pub open spec fn with_links(
        self,
        at: ScanModel,
        doc: DocumentModel,
        links: Seq<LinkModel>,
        strict: bool,
    ) -> ScanModel
        decreases links.len(),
    {
        if links.len() == 0 {
            at
        } else {
            self.with_link(
                self.with_links(at, doc, links.drop_last(), strict),
                doc,
                links.last(),
                strict,
            )
        }
    }

    /// The check of these notes, link by link.
    pub open spec fn scan(self, docs: Seq<DocumentModel>, strict: bool) -> ScanModel
        decreases docs.len(),
    {
        if docs.len() == 0 {
            ScanModel { diagnostics: Seq::empty(), wanted: Seq::empty(), links: 0 }
        } else {
            self.with_links(
                self.scan(docs.drop_last(), strict),
                docs.last(),
                docs.last().links,
                strict,
            )
        }
    }

    /// The report on these notes. The most wanted pages come first; pages that
    /// are wanted equally often come in the order in which they were met.
    pub open spec fn report(self, docs: Seq<DocumentModel>, strict: bool) -> ReportModel {
        let end = self.scan(docs, strict);
        ReportModel {
            total_files_scanned: docs.len(),
            total_links_checked: end.links,
            diagnostics: end.diagnostics,
            wanted_pages: sorted_by(end.wanted, |a: WantedModel, b: WantedModel| more_wanted(a, b)),
        }
    }

    /// Notes with links into themselves are among the indexed ones.
    pub open spec fn knows_self_links(self, docs: Seq<DocumentModel>) -> bool {
        forall|i: int, j: int|
            #![trigger docs[i].links[j]]
            0 <= i < docs.len() && 0 <= j < docs[i].links.len() && is_self_link(docs[i].links[j])
                ==> self.by_path.contains_key(path_key(docs[i].path))
    }
}

/// Whether a page is wanted more often than another.
pub open spec fn more_wanted(a: WantedModel, b: WantedModel) -> bool {
    a.reference_count > b.reference_count
}

/// How many links the notes have.
pub open spec fn link_count(docs: Seq<DocumentModel>) -> nat
    decreases docs.len(),
{
    if docs.len() == 0 {
        0
    } else {
        link_count(docs.drop_last()) + docs.last().links.len()
    }
}

fn location(doc: &ParsedDocument, link: &AstLink) -> (r: DiagnosticLocation)
    ensures
        r@ == location_of(doc@, link@),
{
    DiagnosticLocation {
        file_path: doc.path.clone(),
        line_number: link.line_number,
        col_start: link.col_start,
        col_end: link.col_end,
        source_line: match clone_opt(&link.context_snippet) {
            Some(s) => s,
            None => String::new(),
        },
    }
}

fn quoted(a: &str, what: &str, b: &str, title: &str, c: &str) -> (r: String)
    ensures
        r@ == a@ + what@ + b@ + title@ + c@,
{
    let mut s = a.to_owned();
    s.append(what);
    s.append(b);
    s.append(title);
    s.append(c);
    s
}

fn first_text_between(s: &Vec<String>, a: &str, b: &str) -> (r: Option<String>)
    ensures
        opt_view(r) == first_between(views(s@), a@, b@),
{
    if s.len() > 0 {
        assert(views(s@)[0] == s@[0]@);
        let mut t = a.to_owned();
        t.append(s[0].as_str());
        t.append(b);
        Some(t)
    } else {
        None
    }
}

fn opening(link: &AstLink, own: bool, mark: &str) -> (r: String)
    requires
        own == is_self_link(link@),
    ensures
        r@ == link_opening(link@, mark@),
{
    let mut s = "[[".to_owned();
    if !own {
        s.append(link.target_note.as_str());
    }
    s.append(mark);
    s
}

fn heading_exists(headings: &Vec<String>, wanted: &str) -> (r: bool)
    ensures
        r == has_heading(views(headings@), wanted@),
{
    let slug = slugify(wanted);
    let ghost all = views(headings@);
    let mut k: usize = 0;
    while k < headings.len()
        invariant
            k <= headings@.len(),
            all == views(headings@),
            slug@ == slug_of(wanted@),
            forall|j: int|
                0 <= j < k ==> !(same_ignoring_case(#[trigger] all[j], wanted@) || slug_of(all[j])
                    == slug_of(wanted@)),
        decreases headings.len() - k,
    {
        assert(all[k as int] == headings@[k as int]@);
        let h = headings[k].as_str();
        if eq_ignore_ascii_case(h, wanted) {
            return true;
        }
        let other = slugify(h);
        if same(other.as_str(), slug.as_str()) {
            return true;
        }
        k += 1;
    }
    false
}

fn path_held(files: &Vec<String>, path: &str) -> (r: bool)
    ensures
        r == holds_path(views(files@), path@),
{
    let key = path_key_text(path);
    let ghost all = views(files@);
    let mut k: usize = 0;
    while k < files.len()
        invariant
            k <= files@.len(),
            all == views(files@),
            key@ == path_key(path@),
            forall|j: int| 0 <= j < k ==> path_key(#[trigger] all[j]) != path_key(path@),
        decreases files.len() - k,
    {
        assert(all[k as int] == files@[k as int]@);
        let other = path_key_text(files[k].as_str());
        if same(other.as_str(), key.as_str()) {
            return true;
        }
        k += 1;
    }
    false
}

fn push_wanted(
    ws: &mut Vec<WantedPage>,
    target: &str,
    at: DiagnosticLocation,
    suggestions: Vec<String>,
)
    ensures
        views(final(ws)@) == with_wanted(views(old(ws)@), target@, at@, views(suggestions@)),
{
    broadcast use group_views;

    let ghost all = views(ws@);
    let mut i: usize = 0;
    while i < ws.len()
        invariant
            i <= ws@.len(),
            all == views(ws@),
            all == views(old(ws)@),
            wanted_index(all, target@, i as int) == wanted_index(all, target@, 0),
        decreases ws.len() - i,
    {
        assert(all[i as int] == ws@[i as int]@);
        if same(ws[i].target.as_str(), target) {
            let w = ws.remove(i);
            let mut files = w.referencing_files;
            if !path_held(&files, at.file_path.as_str()) {
                files.push(at.file_path.clone());
            }
            let mut occurrences = w.occurrences;
            occurrences.push(at);
            let page = WantedPage {
                target: w.target,
                reference_count: occurrences.len(),
                referencing_files: files,
                occurrences,
                suggestions: w.suggestions,
            };
            ws.insert(i, page);
            assert(views(ws@) =~= all.update(i as int, page@));
            let ghost want = with_wanted(all, target@, at@, views(suggestions@))[i as int];
            assert(page@.target == want.target);
            assert(page@.reference_count == want.reference_count);
            assert(page@.referencing_files == want.referencing_files);
            assert(page@.occurrences == want.occurrences);
            assert(page@.suggestions == want.suggestions);
            assert(views(ws@) =~= with_wanted(all, target@, at@, views(suggestions@)));
            return;
        }
        i += 1;
    }
    let mut files: Vec<String> = Vec::new();
    files.push(at.file_path.clone());
    let mut occurrences: Vec<DiagnosticLocation> = Vec::new();
    occurrences.push(at);
    assert(views(files@) =~= seq![at@.file_path]);
    assert(views(occurrences@) =~= seq![at@]);
    ws.push(
        WantedPage {
            target: target.to_owned(),
            reference_count: 1,
            referencing_files: files,
            occurrences,
            suggestions,
        },
    );
}

fn wanted_less(a: &WantedPage, b: &WantedPage) -> (r: bool)
    ensures
        r == more_wanted(a@, b@),
{
    a.reference_count > b.reference_count
}

impl DiagnosticsEngine {
    fn check_heading(
        &self,
        note: &NoteTargets,
        doc: &ParsedDocument,
        link: &AstLink,
        own: bool,
    )
        -> (r: Option<Diagnostic>)
        requires
            own == is_self_link(link@),
        ensures
            opt_view(r) == heading_finding(self@.typo, note@, doc@, link@),
    {
        broadcast use group_views;

        match &link.target_heading {
            None => None,
            Some(h) => {
                let trimmed = str_trim(h.as_str());
                let wanted = str_trim_start_char(trimmed.as_str(), '#');
                if heading_exists(&note.headings, wanted.as_str()) {
                    return None;
                }
                let suggestions = self.typo_engine.suggest(wanted.as_str(), &note.headings);
                let open = opening(link, own, "#");
                let mut known = "available headings: ".to_owned();
                let list = str_join(&note.headings, ", ");
                known.append(list.as_str());
                let mut notes: Vec<String> = Vec::new();
                notes.push(known);
                assert(views(notes@) =~= seq![known@]);
                Some(
                    Diagnostic {
                        code: DiagnosticCode::BrokenHeadingAnchor,
                        severity: DiagnosticSeverity::Warning,
                        message: quoted(
                            "heading anchor '#",
                            wanted.as_str(),
                            "' not found in note '",
                            note.title.as_str(),
                            "'",
                        ),
                        location: location(doc, link),
                        suggestion: first_text_between(&suggestions, open.as_str(), "]]"),
                        notes,
                    },
                )
            },
        }
    }

    fn check_block(
        &self,
        note: &NoteTargets,
        doc: &ParsedDocument,
        link: &AstLink,
        own: bool,
    )
        -> (r: Option<Diagnostic>)
        requires
            own == is_self_link(link@),
        ensures
            opt_view(r) == block_finding(self@.typo, note@, doc@, link@),
    {
        broadcast use group_views;

        match &link.target_block {
            None => None,
            Some(b) => {
                let trimmed = str_trim(b.as_str());
                let wanted = str_trim_start_char(trimmed.as_str(), '^');
                if holds_str(&note.block_ids, wanted.as_str()) {
                    return None;
                }
                let suggestions = self.typo_engine.suggest(wanted.as_str(), &note.block_ids);
                let open = opening(link, own, "#^");
                let mut known = "existing block ids: ".to_owned();
                let list = str_join(&note.block_ids, ", ");
                known.append(list.as_str());
                let mut notes: Vec<String> = Vec::new();
                notes.push(known);
                assert(views(notes@) =~= seq![known@]);
                Some(
                    Diagnostic {
                        code: DiagnosticCode::BrokenBlockReference,
                        severity: DiagnosticSeverity::Warning,
                        message: quoted(
                            "block reference '^",
                            wanted.as_str(),
                            "' not found in note '",
                            note.title.as_str(),
                            "'",
                        ),
                        location: location(doc, link),
                        suggestion: first_text_between(&suggestions, open.as_str(), "]]"),
                        notes,
                    },
                )
            },
        }
    }

    fn check_link(
        &self,
        found: &mut Vec<Diagnostic>,
        wanted: &mut Vec<WantedPage>,
        known: &Vec<String>,
        doc: &ParsedDocument,
        link: &AstLink,
        strict: bool,
    )
        requires
            self@.wf(),
            views(known@) == self@.known_targets(),
            is_self_link(link@) ==> self@.by_path.contains_key(path_key(doc@.path)),
        ensures
            ({
                let before = ScanModel {
                    diagnostics: views(old(found)@),
                    wanted: views(old(wanted)@),
                    links: 0,
                };
                let after = self@.with_link(before, doc@, link@, strict);
                &&& views(final(found)@) == after.diagnostics
                &&& views(final(wanted)@) == after.wanted
            }),
    {
        broadcast use group_views;

        let trimmed = str_trim(link.target_note.as_str());
        let own = trimmed.as_str().is_empty();
        let place: Option<usize> = if own {
            let key = path_key_text(doc.path.as_str());
            self.lookup(key.as_str())
        } else {
            self.resolve_index(Some(doc.path.as_str()), link.target_note.as_str())
        };
        match place {
            None => {
                let suggestions = self.typo_engine.suggest(link.target_note.as_str(), known);
                let mut message = "target note '".to_owned();
                message.append(link.target_note.as_str());
                message.append("' does not exist in vault");
                let notes: Vec<String> = Vec::new();
                found.push(
                    Diagnostic {
                        code: match link.link_type {
                            LinkType::Wikilink => DiagnosticCode::UnresolvedWikilink,
                            LinkType::Embed => DiagnosticCode::UnresolvedEmbed,
                            LinkType::Markdown => DiagnosticCode::DeadMarkdownLink,
                        },
                        severity: severity(strict),
                        message,
                        location: location(doc, link),
                        suggestion: first_text_between(&suggestions, "[[", "]]"),
                        notes,
                    },
                );
                push_wanted(wanted, link.target_note.as_str(), location(doc, link), suggestions);
            },
            Some(i) => {
                assert(views(self.notes@)[i as int] == self.notes@[i as int]@);
                let note = &self.notes[i];
                if let Some(d) = self.check_heading(note, doc, link, own) {
                    found.push(d);
                }
                if let Some(d) = self.check_block(note, doc, link, own) {
                    found.push(d);
                }
            },
        }
    }

    /// Checks the links of these notes.
    pub fn run(&self, docs: &Vec<ParsedDocument>, strict_mode: bool) -> (r: DiagnosticsReport)
        requires
            self@.wf(),
            self@.knows_self_links(views(docs@)),
            link_count(views(docs@)) <= usize::MAX,
        ensures
            r@ == self@.report(views(docs@), strict_mode),
    {
        broadcast use group_views;

        let ghost all = views(docs@);
        let known = self.all_known_targets();
        let mut found: Vec<Diagnostic> = Vec::new();
        let mut wanted: Vec<WantedPage> = Vec::new();
        let mut total: usize = 0;
        let mut i: usize = 0;
        while i < docs.len()
            invariant
                i <= docs@.len(),
                all == views(docs@),
                self@.wf(),
                self@.knows_self_links(all),
                views(known@) == self@.known_targets(),
                link_count(all) <= usize::MAX,
                total == link_count(all.take(i as int)),
                self@.scan(all.take(i as int), strict_mode) == (ScanModel {
                    diagnostics: views(found@),
                    wanted: views(wanted@),
                    links: total as nat,
                }),
            decreases docs.len() - i,
        {
            let doc = &docs[i];
            assert(all[i as int] == doc@);
            assert(all.take(i as int + 1).drop_last() =~= all.take(i as int));
            proof {
                lemma_link_count(all, i as int + 1);
            }
            let ghost links = views(doc.links@);
            let ghost start = self@.scan(all.take(i as int), strict_mode);
            let ghost base = total as int;
            let mut k: usize = 0;
            assert(links.take(0) =~= Seq::empty());
            while k < doc.links.len()
                invariant
                    k <= doc.links@.len(),
                    i < docs@.len(),
                    all == views(docs@),
                    all[i as int] == doc@,
                    links == views(doc.links@),
                    self@.wf(),
                    self@.knows_self_links(all),
                    views(known@) == self@.known_targets(),
                    base + doc.links@.len() <= usize::MAX,
                    total == base + k,
                    self@.with_links(start, doc@, links.take(k as int), strict_mode) == (
                    ScanModel {
                        diagnostics: views(found@),
                        wanted: views(wanted@),
                        links: total as nat,
                    }),
                decreases doc.links.len() - k,
            {
                let link = &doc.links[k];
                assert(links[k as int] == link@);
                assert(all[i as int].links[k as int] == link@);
                assert(links.take(k as int + 1).drop_last() =~= links.take(k as int));
                self.check_link(&mut found, &mut wanted, &known, doc, link, strict_mode);
                total += 1;
                k += 1;
            }
            assert(links.take(k as int) =~= links);
            i += 1;
        }
        assert(all.take(i as int) =~= all);
        let ghost lt = |a: WantedPage, b: WantedPage| more_wanted(a@, b@);
        let ghost lt_view = |a: WantedModel, b: WantedModel| more_wanted(a, b);
        proof {
            lemma_sorted_views(wanted@, lt, lt_view);
        }
        let pages = sort_by(wanted, wanted_less, Ghost(lt));
        DiagnosticsReport {
            total_files_scanned: docs.len(),
            total_links_checked: total,
            diagnostics: found,
            wanted_pages: pages,
        }
    }
}

/// The links of the first notes are some of those of all.
pub proof fn lemma_link_count(docs: Seq<DocumentModel>, n: int)
    requires
        1 <= n <= docs.len(),
    ensures
        link_count(docs.take(n)) <= link_count(docs),
        link_count(docs.take(n)) == link_count(docs.take(n - 1)) + docs[n - 1].links.len(),
    decreases docs.len() - n,
{
    assert(docs.take(n).drop_last() =~= docs.take(n - 1));
    if n == docs.len() {
        assert(docs.take(n) =~= docs);
    } else {
        lemma_link_count(docs, n + 1);
    }
}

// ---------------------------------------------------------------------------
// What holds of every report
// ---------------------------------------------------------------------------

/// Whether a name is a link target as it stands: not empty, without white space
/// around it and without `.md` at its end.
pub open spec fn is_plain_name(s: Seq<char>) -> bool {
    s.len() > 0 && trim(crate::links::trim_end_str(s, ".md"@)) == s
}

/// Once a note is indexed, its title and its aliases resolve.
pub proof fn indexed_names_resolve(
    m: EngineModel,
    doc: DocumentModel,
    from: Option<Seq<char>>,
    name: Seq<char>,
)
    requires
        m.wf(),
        m.notes.len() <= usize::MAX,
        is_plain_name(name),
        name == doc.title || doc.frontmatter.aliases.contains(name),
    ensures
        m.indexed(doc).resolve(from, name) is Some,
{
    if doc.frontmatter.aliases.contains(name) {
        let k = choose|k: int|
            0 <= k < doc.frontmatter.aliases.len() && doc.frontmatter.aliases[k] == name;
        let n = if m.by_path.contains_key(path_key(doc.path)) {
            m.by_path[path_key(doc.path)]
        } else {
            m.notes.len() as usize
        };
        lemma_alias_known(m, doc.frontmatter.aliases, n, k);
    }
}

proof fn lemma_alias_known(m: EngineModel, names: Seq<Seq<char>>, n: usize, k: int)
    requires
        0 <= k < names.len(),
    ensures
        m.with_aliases(names, n).by_alias.contains_key(lowercase(names[k])),
    decreases names.len(),
{
    if k < names.len() - 1 {
        lemma_alias_known(m, names.drop_last(), n, k);
        assert(names.drop_last()[k] == names[k]);
    }
}

/// What holds of the pages that a check has found wanted: each counts its
/// occurrences, and no name is wanted twice.
pub open spec fn wanted_consistent(ws: Seq<WantedModel>) -> bool {
    &&& forall|i: int|
        0 <= i < ws.len() ==> (#[trigger] ws[i]).reference_count == ws[i].occurrences.len()
            && ws[i].reference_count >= 1
    &&& forall|i: int, j: int|
        0 <= i < j < ws.len() ==> (#[trigger] ws[i]).target != (#[trigger] ws[j]).target
}

proof fn lemma_wanted_index(ws: Seq<WantedModel>, target: Seq<char>, i: int)
    requires
        0 <= i <= ws.len(),
    ensures
        i <= wanted_index(ws, target, i) <= ws.len(),
        wanted_index(ws, target, i) < ws.len() ==> ws[wanted_index(ws, target, i)].target == target,
        forall|j: int| i <= j < wanted_index(ws, target, i) ==> (#[trigger] ws[j]).target != target,
    decreases ws.len() - i,
{
    if i < ws.len() && ws[i].target != target {
        lemma_wanted_index(ws, target, i + 1);
    }
}

proof fn lemma_with_wanted(
    ws: Seq<WantedModel>,
    target: Seq<char>,
    at: LocationModel,
    suggestions: Seq<Seq<char>>,
)
    requires
        wanted_consistent(ws),
    ensures
        wanted_consistent(with_wanted(ws, target, at, suggestions)),
{
    lemma_wanted_index(ws, target, 0);
    let k = wanted_index(ws, target, 0);
    let r = with_wanted(ws, target, at, suggestions);
    assert forall|i: int, j: int| 0 <= i < j < r.len() implies (#[trigger] r[i]).target != (
    #[trigger] r[j]).target by {
        if i < ws.len() && j < ws.len() {
            assert(r[i].target == ws[i].target && r[j].target == ws[j].target);
        }
    }
    assert forall|i: int| 0 <= i < r.len() implies (#[trigger] r[i]).reference_count
        == r[i].occurrences.len() && r[i].reference_count >= 1 by {
        if i < ws.len() && i != k {
            assert(r[i] == ws[i]);
        }
    }
}

/// Whether a finding is that a link's target does not exist.
pub open spec fn is_unresolved(code: DiagnosticCode) -> bool {
    code == DiagnosticCode::UnresolvedWikilink || code == DiagnosticCode::UnresolvedEmbed || code
        == DiagnosticCode::DeadMarkdownLink
}

/// How grave a finding is.
pub open spec fn grade(code: DiagnosticCode, strict: bool) -> DiagnosticSeverity {
    if is_unresolved(code) {
        severity_in(strict)
    } else {
        DiagnosticSeverity::Warning
    }
}

/// Whether each finding is as grave as its kind.
pub open spec fn graded(ds: Seq<DiagnosticModel>, strict: bool) -> bool {
    forall|i: int|
        0 <= i < ds.len() ==> (#[trigger] ds[i]).severity == grade(ds[i].code, strict)
}

proof fn lemma_scan_links(
    m: EngineModel,
    at: ScanModel,
    doc: DocumentModel,
    links: Seq<LinkModel>,
    strict: bool,
)
    requires
        wanted_consistent(at.wanted),
        graded(at.diagnostics, strict),
    ensures
        ({
            let end = m.with_links(at, doc, links, strict);
            &&& wanted_consistent(end.wanted)
            &&& graded(end.diagnostics, strict)
            &&& end.links == at.links + links.len()
        }),
    decreases links.len(),
{
    if links.len() > 0 {
        lemma_scan_links(m, at, doc, links.drop_last(), strict);
        let before = m.with_links(at, doc, links.drop_last(), strict);
        let link = links.last();
        match m.target_of(doc, link) {
            None => {
                lemma_with_wanted(
                    before.wanted,
                    link.target_note,
                    location_of(doc, link),
                    m.typo.suggestions(link.target_note, m.known_targets()),
                );
            },
            Some(_) => {},
        }
    }
}

proof fn lemma_scan(m: EngineModel, docs: Seq<DocumentModel>, strict: bool)
    ensures
        wanted_consistent(m.scan(docs, strict).wanted),
        graded(m.scan(docs, strict).diagnostics, strict),
        m.scan(docs, strict).links == link_count(docs),
    decreases docs.len(),
{
    if docs.len() > 0 {
        lemma_scan(m, docs.drop_last(), strict);
        let before = m.scan(docs.drop_last(), strict);
        lemma_scan_links(m, before, docs.last(), docs.last().links, strict);
    }
}

proof fn lemma_aliases_grow(m: EngineModel, names: Seq<Seq<char>>, n: usize, key: Seq<char>)
    requires
        m.by_alias.contains_key(key),
    ensures
        m.with_aliases(names, n).by_alias.contains_key(key),
    decreases names.len(),
{
    if names.len() > 0 {
        lemma_aliases_grow(m, names.drop_last(), n, key);
    }
}

/// A link that leads to a note still does when more notes are indexed.
pub proof fn indexing_keeps_names(
    m: EngineModel,
    doc: DocumentModel,
    from: Option<Seq<char>>,
    target: Seq<char>,
)
    requires
        m.resolve(from, target) is Some,
    ensures
        m.indexed(doc).resolve(from, target) is Some,
{
    let low = lowercase(trim(crate::links::trim_end_str(target, ".md"@)));
    let n = if m.by_path.contains_key(path_key(doc.path)) {
        m.by_path[path_key(doc.path)]
    } else {
        m.notes.len() as usize
    };
    if m.by_alias.contains_key(low) {
        lemma_aliases_grow(m, doc.frontmatter.aliases, n, low);
    }
}

/// Unless the check is strict, everything it finds is a warning.
pub proof fn lenient_check_has_no_errors(m: EngineModel, docs: Seq<DocumentModel>)
    ensures
        ({
            let found = m.report(docs, false).diagnostics;
            &&& severity_count(found, DiagnosticSeverity::Warning) == found.len()
            &&& severity_count(found, DiagnosticSeverity::Error) == 0
        }),
{
    lemma_scan(m, docs, false);
    lemma_only_warnings(m.scan(docs, false).diagnostics);
}

/// In a strict check a missing target is an error, and nothing else is; the other findings
/// are warnings.
pub proof fn strict_check_errs_on_missing_targets(m: EngineModel, docs: Seq<DocumentModel>)
    ensures
        ({
            let found = m.report(docs, true).diagnostics;
            &&& forall|i: int|
                0 <= i < found.len() ==> ((#[trigger] found[i]).severity
                    == DiagnosticSeverity::Error <==> is_unresolved(found[i].code))
            &&& severity_count(found, DiagnosticSeverity::Error) + severity_count(
                found,
                DiagnosticSeverity::Warning,
            ) == found.len()
        }),
{
    lemma_scan(m, docs, true);
    lemma_counts_add_up(m.scan(docs, true).diagnostics, true);
}

proof fn lemma_only_warnings(ds: Seq<DiagnosticModel>)
    requires
        graded(ds, false),
    ensures
        severity_count(ds, DiagnosticSeverity::Warning) == ds.len(),
        severity_count(ds, DiagnosticSeverity::Error) == 0,
    decreases ds.len(),
{
    if ds.len() > 0 {
        lemma_only_warnings(ds.drop_last());
        assert(ds[ds.len() - 1].severity == DiagnosticSeverity::Warning);
    }
}

proof fn lemma_counts_add_up(ds: Seq<DiagnosticModel>, strict: bool)
    requires
        graded(ds, strict),
    ensures
        severity_count(ds, DiagnosticSeverity::Error) + severity_count(
            ds,
            DiagnosticSeverity::Warning,
        ) == ds.len(),
    decreases ds.len(),
{
    if ds.len() > 0 {
        lemma_counts_add_up(ds.drop_last(), strict);
        assert(ds[ds.len() - 1].severity == grade(ds[ds.len() - 1].code, strict));
    }
}

/// A check counts every link of every note.
pub proof fn check_covers_every_link(m: EngineModel, docs: Seq<DocumentModel>, strict: bool)
    ensures
        m.report(docs, strict).total_links_checked == link_count(docs),
        m.report(docs, strict).total_files_scanned == docs.len(),
{
    lemma_scan(m, docs, strict);
}

/// The wanted pages come most wanted first; each counts its occurrences.
pub proof fn wanted_pages_ranked(m: EngineModel, docs: Seq<DocumentModel>, strict: bool)
    ensures
        forall|i: int, j: int|
            0 <= i < j < m.report(docs, strict).wanted_pages.len()
                ==> (#[trigger] m.report(docs, strict).wanted_pages[i]).reference_count >= (
            #[trigger] m.report(docs, strict).wanted_pages[j]).reference_count,
        forall|i: int|
            0 <= i < m.report(docs, strict).wanted_pages.len() ==> (#[trigger] m.report(
                docs,
                strict,
            ).wanted_pages[i]).reference_count == m.report(
                docs,
                strict,
            ).wanted_pages[i].occurrences.len(),
{
    lemma_scan(m, docs, strict);
    let ws = m.scan(docs, strict).wanted;
    let lt = |a: WantedModel, b: WantedModel| more_wanted(a, b);
    let sorted = sorted_by(ws, lt);
    crate::sorting::sorted_is_in_order(ws, lt);
    crate::sorting::lemma_sorted_members(ws, lt);
    assert forall|i: int| 0 <= i < sorted.len() implies (#[trigger] sorted[i]).reference_count
        == sorted[i].occurrences.len() by {
        assert(ws.contains(sorted[i]));
    }
    assert forall|i: int, j: int| 0 <= i < j < sorted.len() implies (
    #[trigger] sorted[i]).reference_count >= (#[trigger] sorted[j]).reference_count by {
        assert(!lt(sorted[j], sorted[i]));
    }
}

// ---------------------------------------------------------------------------
// What a check finds
// ---------------------------------------------------------------------------

/// Whether this is where a link of a note stands.
pub open spec fn lies_at(at: LocationModel, doc: DocumentModel, link: LinkModel) -> bool {
    &&& at.file_path == doc.path
    &&& at.line_number == link.line_number
    &&& at.col_start == link.col_start
    &&& at.col_end == link.col_end
    &&& link.context_snippet is Some ==> at.source_line == link.context_snippet->0
    &&& link.context_snippet is None ==> at.source_line.len() == 0
}

/// Whether a link leads to no note.
pub open spec fn lacks_target(m: EngineModel, doc: DocumentModel, link: LinkModel) -> bool {
    m.target_of(doc, link) is None
}

/// Whether a link leads to a note and names a heading, and no heading of the note is
/// that one, up to case, or has its slug.
pub open spec fn lacks_heading(m: EngineModel, doc: DocumentModel, link: LinkModel) -> bool {
    &&& m.target_of(doc, link) is Some
    &&& link.target_heading is Some
    &&& forall|k: int|
        #![trigger m.notes[m.target_of(doc, link)->0 as int].headings[k]]
        0 <= k < m.notes[m.target_of(doc, link)->0 as int].headings.len() ==> {
            let h = m.notes[m.target_of(doc, link)->0 as int].headings[k];
            let wanted = trim_start_char(trim(link.target_heading->0), '#');
            !same_ignoring_case(h, wanted) && slug_of(h) != slug_of(wanted)
        }
}

/// Whether a link leads to a note and names a block, and the note does not have it.
pub open spec fn lacks_block(m: EngineModel, doc: DocumentModel, link: LinkModel) -> bool {
    &&& m.target_of(doc, link) is Some
    &&& link.target_block is Some
    &&& !m.notes[m.target_of(doc, link)->0 as int].block_ids.contains(
        trim_start_char(trim(link.target_block->0), '^'),
    )
}

/// Whether a finding is what is to be said of a link: of one without a target by the
/// kind of the link, else of its heading or of its block.
pub open spec fn is_finding_on(
    m: EngineModel,
    doc: DocumentModel,
    link: LinkModel,
    d: DiagnosticModel,
) -> bool {
    &&& lies_at(d.location, doc, link)
    &&& match d.code {
        DiagnosticCode::UnresolvedWikilink => lacks_target(m, doc, link) && link.link_type
            == LinkType::Wikilink,
        DiagnosticCode::UnresolvedEmbed => lacks_target(m, doc, link) && link.link_type
            == LinkType::Embed,
        DiagnosticCode::DeadMarkdownLink => lacks_target(m, doc, link) && link.link_type
            == LinkType::Markdown,
        DiagnosticCode::BrokenHeadingAnchor => lacks_heading(m, doc, link),
        DiagnosticCode::BrokenBlockReference => lacks_block(m, doc, link),
    }
}

/// How many findings are of a kind.
pub open spec fn findings_of(ds: Seq<DiagnosticModel>, kind: spec_fn(DiagnosticCode) -> bool) -> nat {
    ds.filter(|d: DiagnosticModel| kind(d.code)).len()
}

/// How many links of the notes are of a kind.
pub open spec fn links_of_kind(
    docs: Seq<DocumentModel>,
    kind: spec_fn(DocumentModel, LinkModel) -> bool,
) -> nat
    decreases docs.len(),
{
    if docs.len() == 0 {
        0
    } else {
        links_of_kind(docs.drop_last(), kind) + docs.last().links.filter(
            |l: LinkModel| kind(docs.last(), l),
        ).len()
    }
}

proof fn lemma_heading_finding(m: EngineModel, doc: DocumentModel, link: LinkModel)
    requires
        m.target_of(doc, link) is Some,
    ensures
        ({
            let f = heading_finding(
                m.typo,
                m.notes[m.target_of(doc, link)->0 as int],
                doc,
                link,
            );
            &&& f is Some <==> lacks_heading(m, doc, link)
            &&& f is Some ==> f->0.code == DiagnosticCode::BrokenHeadingAnchor && is_finding_on(
                m,
                doc,
                link,
                f->0,
            )
        }),
{
    let note = m.notes[m.target_of(doc, link)->0 as int];
    if link.target_heading is Some {
        let wanted = trim_start_char(trim(link.target_heading->0), '#');
        if has_heading(note.headings, wanted) {
            let k = choose|k: int|
                0 <= k < note.headings.len() && (same_ignoring_case(
                    #[trigger] note.headings[k],
                    wanted,
                ) || slug_of(note.headings[k]) == slug_of(wanted));
            assert(!lacks_heading(m, doc, link));
        } else {
            assert(lacks_heading(m, doc, link));
        }
    }
}

/// What is found on one link: first on its target or its heading, then on its block.
proof fn lemma_link_findings(
    m: EngineModel,
    at: ScanModel,
    doc: DocumentModel,
    link: LinkModel,
    strict: bool,
) -> (more: Seq<DiagnosticModel>)
    ensures
        m.with_link(at, doc, link, strict).diagnostics == at.diagnostics + more,
        forall|i: int| 0 <= i < more.len() ==> is_finding_on(m, doc, link, #[trigger] more[i]),
        lacks_target(m, doc, link) ==> more.len() == 1 && is_unresolved(more[0].code),
        !lacks_target(m, doc, link) ==> more.len() == (if lacks_heading(m, doc, link) {
            1int
        } else {
            0
        }) + (if lacks_block(m, doc, link) {
            1int
        } else {
            0
        }),
        lacks_heading(m, doc, link) ==> more[0].code == DiagnosticCode::BrokenHeadingAnchor,
        lacks_block(m, doc, link) ==> more[more.len() - 1].code
            == DiagnosticCode::BrokenBlockReference,
{
    match m.target_of(doc, link) {
        None => {
            let suggestions = m.typo.suggestions(link.target_note, m.known_targets());
            let d = unresolved_finding(suggestions, doc, link, strict);
            assert(at.diagnostics + seq![d] =~= at.diagnostics.push(d));
            seq![d]
        },
        Some(n) => {
            let h = heading_finding(m.typo, m.notes[n as int], doc, link);
            let b = block_finding(m.typo, m.notes[n as int], doc, link);
            lemma_heading_finding(m, doc, link);
            let first = with_found(Seq::empty(), h);
            let more = with_found(first, b);
            assert(at.diagnostics + first =~= with_found(at.diagnostics, h));
            assert(at.diagnostics + more =~= with_found(with_found(at.diagnostics, h), b));
            if b is Some {
                assert(is_finding_on(m, doc, link, b->0));
            }
            more
        },
    }
}

spec fn is_heading_code(code: DiagnosticCode) -> bool {
    code == DiagnosticCode::BrokenHeadingAnchor
}

spec fn is_block_code(code: DiagnosticCode) -> bool {
    code == DiagnosticCode::BrokenBlockReference
}

/// Whether one of the findings from `from` on is such a finding on the link.
spec fn is_told(
    m: EngineModel,
    ds: Seq<DiagnosticModel>,
    from: int,
    doc: DocumentModel,
    link: LinkModel,
    kind: spec_fn(DiagnosticCode) -> bool,
) -> bool {
    exists|i: int|
        from <= i < ds.len() && kind((#[trigger] ds[i]).code) && is_finding_on(m, doc, link, ds[i])
}

/// Whether each defect of the link is told from `from` on.
#[verifier::opaque]
spec fn is_covered(
    m: EngineModel,
    ds: Seq<DiagnosticModel>,
    from: int,
    doc: DocumentModel,
    link: LinkModel,
) -> bool {
    &&& lacks_target(m, doc, link) ==> is_told(
        m,
        ds,
        from,
        doc,
        link,
        |c: DiagnosticCode| is_unresolved(c),
    )
    &&& lacks_heading(m, doc, link) ==> is_told(
        m,
        ds,
        from,
        doc,
        link,
        |c: DiagnosticCode| is_heading_code(c),
    )
    &&& lacks_block(m, doc, link) ==> is_told(
        m,
        ds,
        from,
        doc,
        link,
        |c: DiagnosticCode| is_block_code(c),
    )
}

/// Whether one of the first `n` links of a note has the finding.
#[verifier::opaque]
spec fn is_caused(m: EngineModel, doc: DocumentModel, n: int, d: DiagnosticModel) -> bool {
    exists|j: int|
        0 <= j < n && j < doc.links.len() && is_finding_on(m, doc, #[trigger] doc.links[j], d)
}

proof fn lemma_still_told(
    m: EngineModel,
    before: Seq<DiagnosticModel>,
    more: Seq<DiagnosticModel>,
    from: int,
    to: int,
    doc: DocumentModel,
    link: LinkModel,
    kind: spec_fn(DiagnosticCode) -> bool,
)
    requires
        0 <= to <= from,
    ensures
        is_told(m, before, from, doc, link, kind) ==> is_told(
            m,
            before + more,
            to,
            doc,
            link,
            kind,
        ),
{
    if is_told(m, before, from, doc, link, kind) {
        let i = choose|i: int|
            from <= i < before.len() && kind((#[trigger] before[i]).code) && is_finding_on(
                m,
                doc,
                link,
                before[i],
            );
        assert((before + more)[i] == before[i]);
    }
}

proof fn lemma_still_covered(
    m: EngineModel,
    before: Seq<DiagnosticModel>,
    more: Seq<DiagnosticModel>,
    from: int,
    to: int,
    doc: DocumentModel,
    link: LinkModel,
)
    requires
        0 <= to <= from,
        is_covered(m, before, from, doc, link),
    ensures
        is_covered(m, before + more, to, doc, link),
{
    reveal(is_covered);
    lemma_still_told(m, before, more, from, to, doc, link, |c: DiagnosticCode| is_unresolved(c));
    lemma_still_told(m, before, more, from, to, doc, link, |c: DiagnosticCode| is_heading_code(c));
    lemma_still_told(m, before, more, from, to, doc, link, |c: DiagnosticCode| is_block_code(c));
}

proof fn lemma_link_covered(
    m: EngineModel,
    at: ScanModel,
    doc: DocumentModel,
    j: int,
    strict: bool,
    base: int,
) -> (more: Seq<DiagnosticModel>)
    requires
        0 <= j < doc.links.len(),
        0 <= base <= at.diagnostics.len(),
    ensures
        m.with_link(at, doc, doc.links[j], strict).diagnostics == at.diagnostics + more,
        is_covered(m, at.diagnostics + more, base, doc, doc.links[j]),
        forall|i: int| 0 <= i < more.len() ==> is_caused(m, doc, j + 1, #[trigger] more[i]),
{
    let link = doc.links[j];
    let before = at.diagnostics;
    let more = lemma_link_findings(m, at, doc, link, strict);
    let ds = before + more;
    assert(is_covered(m, ds, base, doc, link)) by {
        reveal(is_covered);
        if lacks_target(m, doc, link) || lacks_heading(m, doc, link) {
            assert(ds[before.len() as int] == more[0]);
        }
        if lacks_block(m, doc, link) {
            assert(ds[before.len() + more.len() - 1] == more[more.len() - 1]);
        }
    }
    assert forall|i: int| 0 <= i < more.len() implies is_caused(m, doc, j + 1, #[trigger] more[i]) by {
        reveal(is_caused);
        assert(is_finding_on(m, doc, doc.links[j], more[i]));
    }
    more
}

proof fn lemma_links_findings(
    m: EngineModel,
    at: ScanModel,
    doc: DocumentModel,
    n: nat,
    strict: bool,
) -> (more: Seq<DiagnosticModel>)
    requires
        n <= doc.links.len(),
    ensures
        m.with_links(at, doc, doc.links.take(n as int), strict).diagnostics == at.diagnostics + more,
        forall|i: int| 0 <= i < more.len() ==> is_caused(m, doc, n as int, #[trigger] more[i]),
        forall|j: int|
            #![trigger doc.links[j]]
            0 <= j < n ==> is_covered(m, at.diagnostics + more, 0, doc, doc.links[j]),
    decreases n,
{
    if n == 0 {
        assert(doc.links.take(0).len() == 0);
        assert(at.diagnostics + Seq::<DiagnosticModel>::empty() =~= at.diagnostics);
        Seq::empty()
    } else {
        let k = (n - 1) as nat;
        let links = doc.links.take(n as int);
        assert(links.drop_last() =~= doc.links.take(k as int));
        assert(links.last() == doc.links[k as int]);
        let part = m.with_links(at, doc, doc.links.take(k as int), strict);
        let first = lemma_links_findings(m, at, doc, k, strict);
        let then_more = lemma_link_covered(m, part, doc, k as int, strict, 0);
        let more = first + then_more;
        assert(at.diagnostics + first + then_more =~= at.diagnostics + more);
        assert forall|i: int| 0 <= i < more.len() implies is_caused(
            m,
            doc,
            n as int,
            #[trigger] more[i],
        ) by {
            reveal(is_caused);
            if i < first.len() {
                assert(more[i] == first[i]);
            } else {
                assert(more[i] == then_more[i - first.len()]);
            }
        }
        assert forall|j: int| #![trigger doc.links[j]] 0 <= j < n implies is_covered(
            m,
            at.diagnostics + more,
            0,
            doc,
            doc.links[j],
        ) by {
            if j < k {
                lemma_still_covered(m, at.diagnostics + first, then_more, 0, 0, doc, doc.links[j]);
            }
        }
        more
    }
}

/// A check says of every link that leads to no note that it does not, by the kind of
/// the link and where the link stands.
pub proof fn missing_targets_are_found(
    m: EngineModel,
    docs: Seq<DocumentModel>,
    strict: bool,
    d: int,
    l: int,
)
    requires
        0 <= d < docs.len(),
        0 <= l < docs[d].links.len(),
        lacks_target(m, docs[d], docs[d].links[l]),
    ensures
        exists|i: int|
            #![trigger m.report(docs, strict).diagnostics[i]]
            {
                let f = m.report(docs, strict).diagnostics[i];
                &&& 0 <= i < m.report(docs, strict).diagnostics.len()
                &&& lies_at(f.location, docs[d], docs[d].links[l])
                &&& f.code == match docs[d].links[l].link_type {
                    LinkType::Wikilink => DiagnosticCode::UnresolvedWikilink,
                    LinkType::Embed => DiagnosticCode::UnresolvedEmbed,
                    LinkType::Markdown => DiagnosticCode::DeadMarkdownLink,
                }
            },
{
    let kind = |c: DiagnosticCode| is_unresolved(c);
    lemma_scan_findings(m, docs, strict);
    let ds = m.scan(docs, strict).diagnostics;
    assert(is_covered(m, ds, 0, docs[d], docs[d].links[l]));
    reveal(is_covered);
    assert(is_told(m, ds, 0, docs[d], docs[d].links[l], kind));
    let i = choose|i: int|
        0 <= i < ds.len() && kind((#[trigger] ds[i]).code) && is_finding_on(
            m,
            docs[d],
            docs[d].links[l],
            ds[i],
        );
    assert(m.report(docs, strict).diagnostics[i] == ds[i]);
}

/// A check says of every link, whatever its kind, that leads to a note and names a
/// heading that no heading of the note equals up to case or slug that the heading is
/// not there, and where the link stands.
pub proof fn broken_headings_are_found(
    m: EngineModel,
    docs: Seq<DocumentModel>,
    strict: bool,
    d: int,
    l: int,
)
    requires
        0 <= d < docs.len(),
        0 <= l < docs[d].links.len(),
        lacks_heading(m, docs[d], docs[d].links[l]),
    ensures
        exists|i: int|
            #![trigger m.report(docs, strict).diagnostics[i]]
            {
                let f = m.report(docs, strict).diagnostics[i];
                &&& 0 <= i < m.report(docs, strict).diagnostics.len()
                &&& lies_at(f.location, docs[d], docs[d].links[l])
                &&& f.code == DiagnosticCode::BrokenHeadingAnchor
            },
{
    let kind = |c: DiagnosticCode| is_heading_code(c);
    lemma_scan_findings(m, docs, strict);
    let ds = m.scan(docs, strict).diagnostics;
    assert(is_covered(m, ds, 0, docs[d], docs[d].links[l]));
    reveal(is_covered);
    assert(is_told(m, ds, 0, docs[d], docs[d].links[l], kind));
    let i = choose|i: int|
        0 <= i < ds.len() && kind((#[trigger] ds[i]).code) && is_finding_on(
            m,
            docs[d],
            docs[d].links[l],
            ds[i],
        );
    assert(m.report(docs, strict).diagnostics[i] == ds[i]);
}

/// A check says of every link, whatever its kind, that leads to a note and names a block
/// that the note does not have that the block is not there, and where the link stands.
pub proof fn broken_blocks_are_found(
    m: EngineModel,
    docs: Seq<DocumentModel>,
    strict: bool,
    d: int,
    l: int,
)
    requires
        0 <= d < docs.len(),
        0 <= l < docs[d].links.len(),
        lacks_block(m, docs[d], docs[d].links[l]),
    ensures
        exists|i: int|
            #![trigger m.report(docs, strict).diagnostics[i]]
            {
                let f = m.report(docs, strict).diagnostics[i];
                &&& 0 <= i < m.report(docs, strict).diagnostics.len()
                &&& lies_at(f.location, docs[d], docs[d].links[l])
                &&& f.code == DiagnosticCode::BrokenBlockReference
            },
{
    let kind = |c: DiagnosticCode| is_block_code(c);
    lemma_scan_findings(m, docs, strict);
    let ds = m.scan(docs, strict).diagnostics;
    assert(is_covered(m, ds, 0, docs[d], docs[d].links[l]));
    reveal(is_covered);
    assert(is_told(m, ds, 0, docs[d], docs[d].links[l], kind));
    let i = choose|i: int|
        0 <= i < ds.len() && kind((#[trigger] ds[i]).code) && is_finding_on(
            m,
            docs[d],
            docs[d].links[l],
            ds[i],
        );
    assert(m.report(docs, strict).diagnostics[i] == ds[i]);
}

/// Every finding of a check is on a link of one of the notes that has that defect.
pub proof fn every_finding_has_a_cause(
    m: EngineModel,
    docs: Seq<DocumentModel>,
    strict: bool,
    i: int,
)
    requires
        0 <= i < m.report(docs, strict).diagnostics.len(),
    ensures
        exists|d: int, l: int|
            #![trigger docs[d].links[l]]
            0 <= d < docs.len() && 0 <= l < docs[d].links.len() && is_finding_on(
                m,
                docs[d],
                docs[d].links[l],
                m.report(docs, strict).diagnostics[i],
            ),
{
    lemma_scan_findings(m, docs, strict);
    let ds = m.scan(docs, strict).diagnostics;
    assert(is_caused_by_some(m, docs, ds[i]));
    let d = choose|d: int|
        0 <= d < docs.len() && is_caused(
            m,
            #[trigger] docs[d],
            docs[d].links.len() as int,
            ds[i],
        );
    reveal(is_caused);
    let l = choose|l: int|
        0 <= l < docs[d].links.len() && is_finding_on(m, docs[d], #[trigger] docs[d].links[l], ds[i]);
    assert(is_finding_on(m, docs[d], docs[d].links[l], m.report(docs, strict).diagnostics[i]));
}

spec fn is_caused_by_some(m: EngineModel, docs: Seq<DocumentModel>, f: DiagnosticModel) -> bool {
    exists|d: int|
        0 <= d < docs.len() && is_caused(m, #[trigger] docs[d], docs[d].links.len() as int, f)
}

proof fn lemma_scan_findings(m: EngineModel, docs: Seq<DocumentModel>, strict: bool)
    ensures
        forall|i: int|
            0 <= i < m.scan(docs, strict).diagnostics.len() ==> is_caused_by_some(
                m,
                docs,
                #[trigger] m.scan(docs, strict).diagnostics[i],
            ),
        forall|d: int, l: int|
            #![trigger docs[d].links[l]]
            0 <= d < docs.len() && 0 <= l < docs[d].links.len() ==> is_covered(
                m,
                m.scan(docs, strict).diagnostics,
                0,
                docs[d],
                docs[d].links[l],
            ),
    decreases docs.len(),
{
    let ds = m.scan(docs, strict).diagnostics;
    if docs.len() > 0 {
        let rest = docs.drop_last();
        let at = m.scan(rest, strict);
        let before = at.diagnostics;
        let doc = docs.last();
        lemma_scan_findings(m, rest, strict);
        let more = lemma_links_findings(m, at, doc, doc.links.len(), strict);
        assert(doc.links.take(doc.links.len() as int) =~= doc.links);
        assert(docs[docs.len() - 1] == doc);
        assert(ds == before + more);
        assert forall|i: int| 0 <= i < ds.len() implies is_caused_by_some(
            m,
            docs,
            #[trigger] ds[i],
        ) by {
            if i < before.len() {
                assert(ds[i] == before[i]);
                let d = choose|d: int|
                    0 <= d < rest.len() && is_caused(
                        m,
                        #[trigger] rest[d],
                        rest[d].links.len() as int,
                        before[i],
                    );
                assert(docs[d] == rest[d]);
            } else {
                assert(ds[i] == more[i - before.len()]);
                assert(is_caused(m, docs[docs.len() - 1], doc.links.len() as int, ds[i]));
            }
        }
        assert forall|d: int, l: int|
            #![trigger docs[d].links[l]]
            0 <= d < docs.len() && 0 <= l < docs[d].links.len() implies is_covered(
            m,
            ds,
            0,
            docs[d],
            docs[d].links[l],
        ) by {
            if d < rest.len() {
                assert(rest[d] == docs[d]);
                assert(is_covered(m, before, 0, rest[d], rest[d].links[l]));
                lemma_still_covered(m, before, more, 0, 0, docs[d], docs[d].links[l]);
            }
        }
    }
}

proof fn lemma_link_counts(
    m: EngineModel,
    at: ScanModel,
    doc: DocumentModel,
    link: LinkModel,
    strict: bool,
)
    ensures
        ({
            let ds = m.with_link(at, doc, link, strict).diagnostics;
            let was = at.diagnostics;
            let unresolved = |c: DiagnosticCode| is_unresolved(c);
            let heading = |c: DiagnosticCode| c == DiagnosticCode::BrokenHeadingAnchor;
            let block = |c: DiagnosticCode| c == DiagnosticCode::BrokenBlockReference;
            &&& findings_of(ds, unresolved) == findings_of(was, unresolved) + (if lacks_target(
                m,
                doc,
                link,
            ) {
                1int
            } else {
                0
            })
            &&& findings_of(ds, heading) == findings_of(was, heading) + (if lacks_heading(
                m,
                doc,
                link,
            ) {
                1int
            } else {
                0
            })
            &&& findings_of(ds, block) == findings_of(was, block) + (if lacks_block(m, doc, link) {
                1int
            } else {
                0
            })
        }),
{
    let was = at.diagnostics;
    let unresolved = |c: DiagnosticCode| is_unresolved(c);
    let heading = |c: DiagnosticCode| c == DiagnosticCode::BrokenHeadingAnchor;
    let block = |c: DiagnosticCode| c == DiagnosticCode::BrokenBlockReference;
    let p = |d: DiagnosticModel| unresolved(d.code);
    let q = |d: DiagnosticModel| heading(d.code);
    let s = |d: DiagnosticModel| block(d.code);
    match m.target_of(doc, link) {
        None => {
            let suggestions = m.typo.suggestions(link.target_note, m.known_targets());
            let d = unresolved_finding(suggestions, doc, link, strict);
            lemma_pick_push(was, d, p);
            lemma_pick_push(was, d, q);
            lemma_pick_push(was, d, s);
        },
        Some(n) => {
            let h = heading_finding(m.typo, m.notes[n as int], doc, link);
            let b = block_finding(m.typo, m.notes[n as int], doc, link);
            lemma_heading_finding(m, doc, link);
            let first = with_found(was, h);
            if h is Some {
                lemma_pick_push(was, h->0, p);
                lemma_pick_push(was, h->0, q);
                lemma_pick_push(was, h->0, s);
            }
            if b is Some {
                lemma_pick_push(first, b->0, p);
                lemma_pick_push(first, b->0, q);
                lemma_pick_push(first, b->0, s);
            }
        },
    }
}

proof fn lemma_links_counts(
    m: EngineModel,
    at: ScanModel,
    doc: DocumentModel,
    links: Seq<LinkModel>,
    strict: bool,
)
    ensures
        ({
            let ds = m.with_links(at, doc, links, strict).diagnostics;
            let was = at.diagnostics;
            let unresolved = |c: DiagnosticCode| is_unresolved(c);
            let heading = |c: DiagnosticCode| c == DiagnosticCode::BrokenHeadingAnchor;
            let block = |c: DiagnosticCode| c == DiagnosticCode::BrokenBlockReference;
            &&& findings_of(ds, unresolved) == findings_of(was, unresolved) + links.filter(
                |l: LinkModel| lacks_target(m, doc, l),
            ).len()
            &&& findings_of(ds, heading) == findings_of(was, heading) + links.filter(
                |l: LinkModel| lacks_heading(m, doc, l),
            ).len()
            &&& findings_of(ds, block) == findings_of(was, block) + links.filter(
                |l: LinkModel| lacks_block(m, doc, l),
            ).len()
        }),
    decreases links.len(),
{
    let p = |l: LinkModel| lacks_target(m, doc, l);
    let q = |l: LinkModel| lacks_heading(m, doc, l);
    let s = |l: LinkModel| lacks_block(m, doc, l);
    if links.len() == 0 {
        reveal(Seq::filter);
    } else {
        let rest = links.drop_last();
        lemma_links_counts(m, at, doc, rest, strict);
        lemma_link_counts(m, m.with_links(at, doc, rest, strict), doc, links.last(), strict);
        assert(links =~= rest.push(links.last()));
        lemma_pick_push(rest, links.last(), p);
        lemma_pick_push(rest, links.last(), q);
        lemma_pick_push(rest, links.last(), s);
    }
}

/// A check tells each defect of each link once: it has as many findings on missing
/// targets, headings and blocks as there are links that lack one.
pub proof fn one_finding_per_defect(m: EngineModel, docs: Seq<DocumentModel>, strict: bool)
    ensures
        findings_of(m.report(docs, strict).diagnostics, |c: DiagnosticCode| is_unresolved(c))
            == links_of_kind(docs, |d: DocumentModel, l: LinkModel| lacks_target(m, d, l)),
        findings_of(
            m.report(docs, strict).diagnostics,
            |c: DiagnosticCode| c == DiagnosticCode::BrokenHeadingAnchor,
        ) == links_of_kind(docs, |d: DocumentModel, l: LinkModel| lacks_heading(m, d, l)),
        findings_of(
            m.report(docs, strict).diagnostics,
            |c: DiagnosticCode| c == DiagnosticCode::BrokenBlockReference,
        ) == links_of_kind(docs, |d: DocumentModel, l: LinkModel| lacks_block(m, d, l)),
    decreases docs.len(),
{
    if docs.len() == 0 {
        reveal(Seq::filter);
    } else {
        let rest = docs.drop_last();
        let doc = docs.last();
        one_finding_per_defect(m, rest, strict);
        lemma_links_counts(m, m.scan(rest, strict), doc, doc.links, strict);
        let p = |d: DocumentModel, l: LinkModel| lacks_target(m, d, l);
        let q = |d: DocumentModel, l: LinkModel| lacks_heading(m, d, l);
        let s = |d: DocumentModel, l: LinkModel| lacks_block(m, d, l);
        assert((|l: LinkModel| p(doc, l)) =~= (|l: LinkModel| lacks_target(m, doc, l)));
        assert((|l: LinkModel| q(doc, l)) =~= (|l: LinkModel| lacks_heading(m, doc, l)));
        assert((|l: LinkModel| s(doc, l)) =~= (|l: LinkModel| lacks_block(m, doc, l)));
    }
}

/// Whether the pages count as often as `tally` says, and each that counts is there.
spec fn tallies(ws: Seq<WantedModel>, tally: spec_fn(Seq<char>) -> nat) -> bool {
    &&& forall|i: int|
        0 <= i < ws.len() ==> (#[trigger] ws[i]).reference_count == tally(ws[i].target)
    &&& forall|t: Seq<char>| #[trigger] tally(t) > 0 ==> is_wanted(ws, t)
}

/// Whether a page is wanted under this name.
pub open spec fn is_wanted(ws: Seq<WantedModel>, target: Seq<char>) -> bool {
    exists|i: int| 0 <= i < ws.len() && (#[trigger] ws[i]).target == target
}

proof fn lemma_wanted_tallies(
    ws: Seq<WantedModel>,
    target: Seq<char>,
    at: LocationModel,
    suggestions: Seq<Seq<char>>,
    tally: spec_fn(Seq<char>) -> nat,
    next: spec_fn(Seq<char>) -> nat,
)
    requires
        wanted_consistent(ws),
        tallies(ws, tally),
        forall|t: Seq<char>| #[trigger] next(t) == tally(t) + (if t == target {
            1nat
        } else {
            0
        }),
    ensures
        tallies(with_wanted(ws, target, at, suggestions), next),
{
    lemma_wanted_index(ws, target, 0);
    let k = wanted_index(ws, target, 0);
    let r = with_wanted(ws, target, at, suggestions);
    if k == ws.len() {
        assert(tally(target) == 0) by {
            if tally(target) > 0 {
                assert(is_wanted(ws, target));
                let i = choose|i: int| 0 <= i < ws.len() && (#[trigger] ws[i]).target == target;
            }
        }
    }
    assert forall|i: int| 0 <= i < r.len() implies (#[trigger] r[i]).reference_count == next(
        r[i].target,
    ) by {
        if i < ws.len() && i != k {
            assert(r[i] == ws[i]);
            if k < ws.len() {
                assert(ws[i].target != ws[k].target);
            }
        } else if k < ws.len() {
            assert(ws[k].reference_count == tally(ws[k].target));
        }
    }
    assert forall|t: Seq<char>| #[trigger] next(t) > 0 implies is_wanted(r, t) by {
        if t == target {
            assert(r[k].target == t);
        } else {
            assert(tally(t) > 0);
            let i = choose|i: int| 0 <= i < ws.len() && (#[trigger] ws[i]).target == t;
            assert(r[i].target == t);
        }
    }
}

/// How many of the links lead to no note and name this target.
spec fn missing_among(
    m: EngineModel,
    doc: DocumentModel,
    links: Seq<LinkModel>,
    target: Seq<char>,
) -> nat {
    links.filter(|l: LinkModel| lacks_target(m, doc, l) && l.target_note == target).len()
}

proof fn lemma_links_tally(
    m: EngineModel,
    at: ScanModel,
    doc: DocumentModel,
    links: Seq<LinkModel>,
    strict: bool,
    tally: spec_fn(Seq<char>) -> nat,
)
    requires
        wanted_consistent(at.wanted),
        graded(at.diagnostics, strict),
        tallies(at.wanted, tally),
    ensures
        tallies(
            m.with_links(at, doc, links, strict).wanted,
            |t: Seq<char>| tally(t) + missing_among(m, doc, links, t),
        ),
    decreases links.len(),
{
    let next = |t: Seq<char>| tally(t) + missing_among(m, doc, links, t);
    if links.len() == 0 {
        assert forall|t: Seq<char>| #[trigger] next(t) == tally(t) by {
            reveal(Seq::filter);
        }
        assert forall|i: int| 0 <= i < at.wanted.len() implies (
        #[trigger] at.wanted[i]).reference_count == next(at.wanted[i].target) by {}
        assert forall|t: Seq<char>| #[trigger] next(t) > 0 implies is_wanted(at.wanted, t) by {
            assert(tally(t) > 0);
        }
    } else {
        let rest = links.drop_last();
        let link = links.last();
        let before = m.with_links(at, doc, rest, strict);
        let mid = |t: Seq<char>| tally(t) + missing_among(m, doc, rest, t);
        lemma_links_tally(m, at, doc, rest, strict, tally);
        lemma_scan_links(m, at, doc, rest, strict);
        assert(rest.push(link) =~= links);
        assert forall|t: Seq<char>| #[trigger] next(t) == mid(t) + (if lacks_target(m, doc, link)
            && t == link.target_note {
            1nat
        } else {
            0
        }) by {
            lemma_pick_push(
                rest,
                link,
                |l: LinkModel| lacks_target(m, doc, l) && l.target_note == t,
            );
        }
        if lacks_target(m, doc, link) {
            lemma_wanted_tallies(
                before.wanted,
                link.target_note,
                location_of(doc, link),
                m.typo.suggestions(link.target_note, m.known_targets()),
                mid,
                next,
            );
        } else {
            assert forall|i: int| 0 <= i < before.wanted.len() implies (
            #[trigger] before.wanted[i]).reference_count == next(before.wanted[i].target) by {
                assert(before.wanted[i].reference_count == mid(before.wanted[i].target));
            }
            assert forall|t: Seq<char>| #[trigger] next(t) > 0 implies is_wanted(
                before.wanted,
                t,
            ) by {
                assert(mid(t) > 0);
            }
        }
    }
}

/// How many links of the notes lead to no note and name this target.
pub open spec fn missing_links(m: EngineModel, docs: Seq<DocumentModel>, target: Seq<char>) -> nat {
    links_of_kind(
        docs,
        |d: DocumentModel, l: LinkModel| lacks_target(m, d, l) && l.target_note == target,
    )
}

proof fn lemma_scan_tally(m: EngineModel, docs: Seq<DocumentModel>, strict: bool)
    ensures
        tallies(m.scan(docs, strict).wanted, |t: Seq<char>| missing_links(m, docs, t)),
    decreases docs.len(),
{
    let all = |t: Seq<char>| missing_links(m, docs, t);
    if docs.len() > 0 {
        let rest = docs.drop_last();
        let doc = docs.last();
        let tally = |t: Seq<char>| missing_links(m, rest, t);
        lemma_scan_tally(m, rest, strict);
        lemma_scan(m, rest, strict);
        lemma_links_tally(m, m.scan(rest, strict), doc, doc.links, strict, tally);
        let next = |t: Seq<char>| tally(t) + missing_among(m, doc, doc.links, t);
        let ws = m.scan(docs, strict).wanted;
        assert forall|t: Seq<char>| #[trigger] all(t) == next(t) by {
            let kind = |d: DocumentModel, l: LinkModel|
                lacks_target(m, d, l) && l.target_note == t;
            assert((|l: LinkModel| kind(doc, l)) =~= (|l: LinkModel|
                lacks_target(m, doc, l) && l.target_note == t));
        }
        assert forall|i: int| 0 <= i < ws.len() implies (#[trigger] ws[i]).reference_count == all(
            ws[i].target,
        ) by {
            assert(ws[i].reference_count == next(ws[i].target));
        }
        assert forall|t: Seq<char>| #[trigger] all(t) > 0 implies is_wanted(ws, t) by {
            assert(next(t) > 0);
        }
    }
}

/// A page is wanted exactly if some link names it and leads to no note, and it counts
/// as often as such links do. No page is there twice.
pub proof fn wanted_pages_count_the_missing(
    m: EngineModel,
    docs: Seq<DocumentModel>,
    strict: bool,
    target: Seq<char>,
)
    ensures
        is_wanted(m.report(docs, strict).wanted_pages, target) <==> missing_links(m, docs, target)
            > 0,
        forall|i: int|
            0 <= i < m.report(docs, strict).wanted_pages.len() ==> (#[trigger] m.report(
                docs,
                strict,
            ).wanted_pages[i]).reference_count == missing_links(
                m,
                docs,
                m.report(docs, strict).wanted_pages[i].target,
            ),
        forall|i: int, j: int|
            0 <= i < j < m.report(docs, strict).wanted_pages.len() ==> (#[trigger] m.report(
                docs,
                strict,
            ).wanted_pages[i]).target != (#[trigger] m.report(docs, strict).wanted_pages[j]).target,
{
    let lt = |a: WantedModel, b: WantedModel| more_wanted(a, b);
    let ws = m.scan(docs, strict).wanted;
    let r = sorted_by(ws, lt);
    let tally = |t: Seq<char>| missing_links(m, docs, t);
    lemma_scan_tally(m, docs, strict);
    lemma_scan(m, docs, strict);
    crate::sorting::lemma_sorted_members(ws, lt);
    assert forall|i: int| 0 <= i < r.len() implies (#[trigger] r[i]).reference_count
        == missing_links(m, docs, r[i].target) && r[i].reference_count >= 1 by {
        assert(ws.contains(r[i]));
        let k = choose|k: int| 0 <= k < ws.len() && ws[k] == r[i];
        assert(ws[k].reference_count == tally(ws[k].target));
    }
    if missing_links(m, docs, target) > 0 {
        assert(tally(target) > 0);
        assert(is_wanted(ws, target));
        let k = choose|k: int| 0 <= k < ws.len() && (#[trigger] ws[k]).target == target;
        assert(r.contains(ws[k]));
        let i = choose|i: int| 0 <= i < r.len() && r[i] == ws[k];
        assert(r[i].target == target);
    }
    if is_wanted(r, target) {
        let i = choose|i: int| 0 <= i < r.len() && (#[trigger] r[i]).target == target;
        assert(r[i].reference_count >= 1);
    }
    assert(ws.no_duplicates()) by {
        assert forall|i: int, j: int| 0 <= i < ws.len() && 0 <= j < ws.len() && i != j implies ws[i]
            != ws[j] by {
            if i < j {
                assert(ws[i].target != ws[j].target);
            } else {
                assert(ws[j].target != ws[i].target);
            }
        }
    }
    crate::sorting::sorted_differ(ws, lt);
    assert forall|i: int, j: int| 0 <= i < j < r.len() implies (#[trigger] r[i]).target != (
    #[trigger] r[j]).target by {
        assert(ws.contains(r[i]) && ws.contains(r[j]));
        let a = choose|a: int| 0 <= a < ws.len() && ws[a] == r[i];
        let b = choose|b: int| 0 <= b < ws.len() && ws[b] == r[j];
        assert(r[i] != r[j]);
        if a < b {
            assert(ws[a].target != ws[b].target);
        } else if b < a {
            assert(ws[b].target != ws[a].target);
        }
    }
}

/// A target names a note by its path before anything else, with `.md` or without; then by
/// the path from where the link stands; then by title, then by alias, then by the name
/// of its file, case aside. A blank target names none.
pub proof fn target_names_the_first_that_fits(
    m: EngineModel,
    from: Seq<char>,
    target: Seq<char>,
)
    ensures
        ({
            let clean = trim(crate::links::trim_end_str(target, ".md"@));
            let plain = without_here(clean);
            let low = lowercase(clean);
            let r = m.resolve(Some(from), target);
            let by_own_path = m.by_path.contains_key(path_key(plain)) || m.by_path.contains_key(
                path_key(plain + ".md"@),
            );
            let by_near_path = (key_beside(from, plain) matches Some(k) && m.by_path.contains_key(k))
                || (key_beside(from, plain + ".md"@) matches Some(k) && m.by_path.contains_key(k));
            &&& clean.len() == 0 ==> r is None
            &&& clean.len() > 0 && m.by_path.contains_key(path_key(plain)) ==> r == Some(
                m.by_path[path_key(plain)],
            )
            &&& clean.len() > 0 && !m.by_path.contains_key(path_key(plain))
                && m.by_path.contains_key(path_key(plain + ".md"@)) ==> r == Some(
                m.by_path[path_key(plain + ".md"@)],
            )
            &&& clean.len() > 0 && !by_own_path && key_beside(from, plain) is Some
                && m.by_path.contains_key(key_beside(from, plain)->0) ==> r == Some(
                m.by_path[key_beside(from, plain)->0],
            )
            &&& clean.len() > 0 && !by_own_path && !by_near_path && m.by_title.contains_key(low)
                ==> r == Some(m.by_title[low])
            &&& clean.len() > 0 && !by_own_path && !by_near_path && !m.by_title.contains_key(low)
                && m.by_alias.contains_key(low) ==> r == Some(m.by_alias[low])
            &&& clean.len() > 0 && !by_own_path && !by_near_path && !m.by_title.contains_key(low)
                && !m.by_alias.contains_key(low) && m.by_stem.contains_key(low) ==> r == Some(
                m.by_stem[low],
            )
            &&& r is Some ==> clean.len() > 0 && (by_own_path || by_near_path
                || m.by_title.contains_key(low) || m.by_alias.contains_key(low)
                || m.by_stem.contains_key(low))
        }),
{
}

/// Everything that is suggested for a missing target is a title or an alias of a note,
/// and the finding suggests the first of it in double brackets.
pub proof fn suggestions_are_known_names(m: EngineModel, doc: DocumentModel, link: LinkModel, strict: bool)
    ensures
        ({
            let s = m.typo.suggestions(link.target_note, m.known_targets());
            let f = unresolved_finding(s, doc, link, strict);
            &&& forall|k: int|
                0 <= k < s.len() ==> m.aliases.contains(#[trigger] s[k]) || exists|n: int|
                    0 <= n < m.notes.len() && (#[trigger] m.notes[n]).title == s[k]
            &&& s.len() == 0 ==> f.suggestion is None
            &&& s.len() > 0 ==> f.suggestion == Some("[["@ + s[0] + "]]"@)
        }),
{
    let known = m.known_targets();
    let titles = m.notes.map_values(|n: NoteTargetsModel| n.title);
    let s = m.typo.suggestions(link.target_note, known);
    crate::typo::suggestions_are_few_and_close(m.typo, link.target_note, known);
    once_keeps_everything(titles + m.aliases);
    assert forall|k: int| 0 <= k < s.len() implies m.aliases.contains(#[trigger] s[k]) || exists|
        n: int,
    | 0 <= n < m.notes.len() && (#[trigger] m.notes[n]).title == s[k] by {
        assert(known.contains(s[k]));
        let q = choose|q: int|
            0 <= q < (titles + m.aliases).len() && (titles + m.aliases)[q] == s[k];
        if q < titles.len() {
            assert(titles[q] == m.notes[q].title);
        } else {
            assert(m.aliases[q - titles.len()] == s[k]);
        }
    }
}

/// What a finding on a heading says: which heading is missing in which note, and, if one
/// is close enough, a link to that heading of the same target.
pub proof fn heading_findings_name_the_heading(
    typo: TypoCorrectionEngine,
    note: NoteTargetsModel,
    doc: DocumentModel,
    link: LinkModel,
)
    ensures
        heading_finding(typo, note, doc, link) matches Some(f) ==> {
            let wanted = trim_start_char(trim(link.target_heading->0), '#');
            let close = typo.suggestions(wanted, note.headings);
            &&& link.target_heading is Some
            &&& f.message == "heading anchor '#"@ + wanted + "' not found in note '"@ + note.title
                + "'"@
            &&& close.len() == 0 ==> f.suggestion is None
            &&& close.len() > 0 && trim(link.target_note).len() > 0 ==> f.suggestion == Some(
                "[["@ + link.target_note + "#"@ + close[0] + "]]"@,
            )
            &&& close.len() > 0 && trim(link.target_note).len() == 0 ==> f.suggestion == Some(
                "[["@ + "#"@ + close[0] + "]]"@,
            )
        },
        block_finding(typo, note, doc, link) matches Some(f) ==> {
            let wanted = trim_start_char(trim(link.target_block->0), '^');
            let close = typo.suggestions(wanted, note.block_ids);
            &&& link.target_block is Some
            &&& f.message == "block reference '^"@ + wanted + "' not found in note '"@ + note.title
                + "'"@
            &&& close.len() == 0 ==> f.suggestion is None
            &&& close.len() > 0 && trim(link.target_note).len() > 0 ==> f.suggestion == Some(
                "[["@ + link.target_note + "#^"@ + close[0] + "]]"@,
            )
        },
{
}

/// Whether a line ends in this block identifier: it stands behind the last caret of the
/// line, white space around it aside, and holds letters, numbers, hyphens and
/// underscores only.
pub open spec fn ends_in_block(line: Seq<char>, id: Seq<char>) -> bool {
    exists|k: int|
        {
            &&& 0 <= k < line.len()
            &&& #[trigger] line[k] == '^'
            &&& !line.skip(k + 1).contains('^')
            &&& id == trim(line.skip(k + 1))
            &&& id.len() > 0
            &&& forall|i: int|
                0 <= i < id.len() ==> is_alnum(#[trigger] id[i]) || id[i] == '-' || id[i] == '_'
        }
}

proof fn lemma_last_caret(line: Seq<char>, i: int)
    requires
        0 <= i <= line.len(),
    ensures
        -1 <= last_before(line, '^', i) < i || (i == 0 && last_before(line, '^', i) == -1),
        last_before(line, '^', i) >= 0 ==> line[last_before(line, '^', i)] == '^',
        forall|k: int| last_before(line, '^', i) < k < i ==> #[trigger] line[k] != '^',
    decreases i,
{
    if i > 0 && line[i - 1] != '^' {
        lemma_last_caret(line, i - 1);
    }
}

proof fn lemma_block_id(line: Seq<char>, id: Seq<char>)
    ensures
        block_id_of(line) == Some(id) <==> ends_in_block(line, id),
{
    lemma_last_caret(line, line.len() as int);
    let k = last_before(line, '^', line.len() as int);
    if block_id_of(line) == Some(id) {
        assert(!line.skip(k + 1).contains('^')) by {
            let behind = line.skip(k + 1);
            if behind.contains('^') {
                let j = choose|j: int| 0 <= j < behind.len() && behind[j] == '^';
                assert(line[k + 1 + j] == '^');
            }
        }
        assert forall|i: int| 0 <= i < id.len() implies is_alnum(#[trigger] id[i]) || id[i] == '-'
            || id[i] == '_' by {
            assert(is_block_char(id[i]));
        }
        assert(line[k] == '^');
    }
    if ends_in_block(line, id) {
        let q = choose|q: int|
            {
                &&& 0 <= q < line.len()
                &&& #[trigger] line[q] == '^'
                &&& !line.skip(q + 1).contains('^')
                &&& id == trim(line.skip(q + 1))
                &&& id.len() > 0
                &&& forall|i: int|
                    0 <= i < id.len() ==> is_alnum(#[trigger] id[i]) || id[i] == '-' || id[i] == '_'
            };
        if q < k {
            assert(line.skip(q + 1)[k - q - 1] == '^');
        }
        assert(q == k);
        assert forall|i: int| 0 <= i < id.len() implies is_block_char(#[trigger] id[i]) by {}
    }
}

proof fn lemma_line_blocks(list: Seq<Seq<char>>, lines: Seq<Seq<char>>)
    ensures
        forall|id: Seq<char>| #[trigger]
            with_line_blocks(list, lines).contains(id) <==> list.contains(id) || has_block_line(
                lines,
                id,
            ),
    decreases lines.len(),
{
    if lines.len() > 0 {
        let rest = lines.drop_last();
        let last = lines.last();
        lemma_line_blocks(list, rest);
        let before = with_line_blocks(list, rest);
        let r = with_line_blocks(list, lines);
        assert forall|id: Seq<char>| #[trigger] r.contains(id) <==> list.contains(id)
            || has_block_line(lines, id) by {
            lemma_block_id(last, id);
            if has_block_line(rest, id) {
                let k = choose|k: int| 0 <= k < rest.len() && ends_in_block(#[trigger] rest[k], id);
                assert(lines[k] == rest[k]);
            }
            if has_block_line(lines, id) && !has_block_line(rest, id) {
                let k = choose|k: int| 0 <= k < lines.len() && ends_in_block(#[trigger] lines[k], id);
                if k < rest.len() {
                    assert(rest[k] == lines[k]);
                }
            }
            assert(lines[lines.len() - 1] == last);
            if before.contains(id) {
                let k = choose|k: int| 0 <= k < before.len() && before[k] == id;
                assert(r[k] == id);
            }
            if r.contains(id) && !before.contains(id) {
                let k = choose|k: int| 0 <= k < r.len() && r[k] == id;
                if k < before.len() {
                    assert(before[k] == id);
                }
            }
            if block_id_of(last) == Some(id) && !before.contains(id) {
                assert(r[before.len() as int] == id);
            }
        }
    }
}

/// Whether one of the lines ends in this block identifier.
pub open spec fn has_block_line(lines: Seq<Seq<char>>, id: Seq<char>) -> bool {
    exists|k: int| 0 <= k < lines.len() && ends_in_block(#[trigger] lines[k], id)
}

/// Links to a note can point at every one of its headings, whatever its level, and at
/// every block identifier that one of the lines of its sections ends in.
pub proof fn headings_and_blocks_can_be_pointed_at(doc: DocumentModel, id: Seq<char>)
    ensures
        targets_of(doc).path == doc.path,
        targets_of(doc).title == doc.title,
        targets_of(doc).headings.len() == doc.sections.len(),
        forall|i: int|
            0 <= i < doc.sections.len() ==> #[trigger] targets_of(doc).headings[i]
                == doc.sections[i].heading,
        targets_of(doc).block_ids.contains(id) <==> exists|i: int|
            0 <= i < doc.sections.len() && has_block_line(
                lines_of((#[trigger] doc.sections[i]).content),
                id,
            ),
{
    lemma_blocks(doc.sections, id);
}

proof fn lemma_blocks(sections: Seq<SectionModel>, id: Seq<char>)
    ensures
        blocks_of(sections).contains(id) <==> exists|i: int|
            0 <= i < sections.len() && has_block_line(lines_of((#[trigger] sections[i]).content), id),
    decreases sections.len(),
{
    if sections.len() > 0 {
        let rest = sections.drop_last();
        lemma_blocks(rest, id);
        lemma_line_blocks(blocks_of(rest), lines_of(sections.last().content));
        if blocks_of(rest).contains(id) {
            let i = choose|i: int|
                0 <= i < rest.len() && has_block_line(lines_of((#[trigger] rest[i]).content), id);
            assert(sections[i] == rest[i]);
        }
        assert(sections[sections.len() - 1] == sections.last());
        if exists|i: int|
            0 <= i < sections.len() && has_block_line(lines_of((#[trigger] sections[i]).content), id) {
            let i = choose|i: int|
                0 <= i < sections.len() && has_block_line(
                    lines_of((#[trigger] sections[i]).content),
                    id,
                );
            if i < rest.len() {
                assert(rest[i] == sections[i]);
            }
        }
    }
}

proof fn lemma_links_prefix(
    m: EngineModel,
    at: ScanModel,
    doc: DocumentModel,
    links: Seq<LinkModel>,
    strict: bool,
)
    ensures
        at.diagnostics.is_prefix_of(m.with_links(at, doc, links, strict).diagnostics),
    decreases links.len(),
{
    let r = m.with_links(at, doc, links, strict).diagnostics;
    if links.len() > 0 {
        lemma_links_prefix(m, at, doc, links.drop_last(), strict);
        let part = m.with_links(at, doc, links.drop_last(), strict);
        let more = lemma_link_findings(m, part, doc, links.last(), strict);
        let before = part.diagnostics;
        assert(before.take(at.diagnostics.len() as int) =~= at.diagnostics);
        assert(r.take(at.diagnostics.len() as int) =~= at.diagnostics) by {
            assert forall|i: int| 0 <= i < at.diagnostics.len() implies r[i] == at.diagnostics[i] by {
                assert(r[i] == before[i]);
                assert(before.take(at.diagnostics.len() as int)[i] == at.diagnostics[i]);
            }
        }
    } else {
        assert(r.take(r.len() as int) =~= r);
    }
}

proof fn lemma_links_of_path(
    m: EngineModel,
    at: ScanModel,
    doc: DocumentModel,
    other: DocumentModel,
    links: Seq<LinkModel>,
    strict: bool,
)
    requires
        doc.path == other.path,
    ensures
        m.with_links(at, doc, links, strict) == m.with_links(at, other, links, strict),
    decreases links.len(),
{
    if links.len() > 0 {
        lemma_links_of_path(m, at, doc, other, links.drop_last(), strict);
    }
}

proof fn lemma_links_front(
    m: EngineModel,
    at: ScanModel,
    doc: DocumentModel,
    links: Seq<LinkModel>,
    n: int,
    strict: bool,
)
    requires
        0 <= n <= links.len(),
    ensures
        m.with_links(at, doc, links.take(n), strict).diagnostics.is_prefix_of(
            m.with_links(at, doc, links, strict).diagnostics,
        ),
    decreases links.len() - n,
{
    let r = m.with_links(at, doc, links, strict).diagnostics;
    if n == links.len() {
        assert(links.take(n) =~= links);
        assert(r.take(r.len() as int) =~= r);
    } else {
        lemma_links_front(m, at, doc, links, n + 1, strict);
        assert(links.take(n + 1).drop_last() =~= links.take(n));
        let a = m.with_links(at, doc, links.take(n), strict);
        let b = m.with_links(at, doc, links.take(n + 1), strict).diagnostics;
        let more = lemma_link_findings(m, a, doc, links.take(n + 1).last(), strict);
        assert(b == a.diagnostics + more);
        assert(r.take(b.len() as int) =~= b);
        assert(r.take(a.diagnostics.len() as int) =~= a.diagnostics) by {
            assert forall|i: int| 0 <= i < a.diagnostics.len() implies r[i] == a.diagnostics[i] by {
                assert(r.take(b.len() as int)[i] == b[i]);
            }
        }
    }
}

/// The findings come note by note and link by link: those of the notes before come first,
/// and of one note those of its first links.
pub proof fn findings_come_in_the_order_of_links(
    m: EngineModel,
    docs: Seq<DocumentModel>,
    doc: DocumentModel,
    n: int,
    strict: bool,
)
    requires
        0 <= n <= doc.links.len(),
    ensures
        m.report(docs, strict).diagnostics.is_prefix_of(
            m.report(docs.push(doc), strict).diagnostics,
        ),
        m.report(
            docs.push(DocumentModel { links: doc.links.take(n), ..doc }),
            strict,
        ).diagnostics.is_prefix_of(m.report(docs.push(doc), strict).diagnostics),
{
    let front = DocumentModel { links: doc.links.take(n), ..doc };
    let at = m.scan(docs, strict);
    assert(docs.push(doc).drop_last() =~= docs);
    assert(docs.push(front).drop_last() =~= docs);
    lemma_links_prefix(m, at, doc, doc.links, strict);
    lemma_links_of_path(m, at, front, doc, front.links, strict);
    lemma_links_front(m, at, doc, doc.links, n, strict);
}

} // verus!
