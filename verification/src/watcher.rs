//! Following a vault on disk: which files matter, when a burst of changes has
//! settled, and what is done about a change.

use crate::ast::ParsedDocument;
use crate::parser::{parsed, sha256_hex, sha256_hex_of, MarkdownParser};
use crate::paths::{
    components_of, extension, is_within, path_components, path_extension, path_is_within, path_key,
    path_key_text,
};
use crate::text::{group_views, holds_str, join, opt_view, same, str_join, views};
use crate::typo::{eq_ignore_ascii_case, same_ignoring_case};
use vstd::prelude::*;

verus! {

// ---------------------------------------------------------------------------
// Settings and reports
// ---------------------------------------------------------------------------

/// How a vault is watched. Times are in milliseconds.
#[derive(Debug)]
pub struct VaultWatcherConfig {
    pub vault_root: String,
    pub debounce_ms: u64,
    pub tick_ms: u64,
    pub ignored_directories: Vec<String>,
}

impl Default for VaultWatcherConfig {
    fn default() -> (r: Self)
        ensures
            r.vault_root@ == "."@,
            r.debounce_ms == 600,
            r.tick_ms == 50,
            views(r.ignored_directories@) == seq![
                ".git"@,
                ".obsidian"@,
                ".trash"@,
                ".atlaswiki"@,
                ".stversions"@,
            ],
    {
        let ignored: Vec<String> = vec![
            ".git".to_owned(),
            ".obsidian".to_owned(),
            ".trash".to_owned(),
            ".atlaswiki".to_owned(),
            ".stversions".to_owned(),
        ];
        assert(views(ignored@) =~= seq![
            ".git"@,
            ".obsidian"@,
            ".trash"@,
            ".atlaswiki"@,
            ".stversions"@,
        ]);
        VaultWatcherConfig {
            vault_root: ".".to_owned(),
            debounce_ms: 600,
            tick_ms: 50,
            ignored_directories: ignored,
        }
    }
}

/// A link that a renamed note left behind.
#[derive(Debug, PartialEq, Eq)]
pub struct BrokenLinkRef {
    pub source_note: String,
    pub line_number: usize,
    pub old_target: String,
    pub new_target: String,
    pub heading: Option<String>,
    pub alias: Option<String>,
    pub context_snippet: Option<String>,
}

/// What came of a renamed note.
#[derive(Debug)]
pub struct RenameReport {
    pub old_path: String,
    pub new_path: String,
    pub old_stem: String,
    pub new_stem: String,
    pub broken_links: Vec<BrokenLinkRef>,
}

/// What listeners are told.
#[derive(Debug)]
pub enum VaultSyncEvent {
    NoteIndexed { path: String, word_count: usize, chunks_count: usize },
    NoteDeleted { path: String },
    NoteRenamed(RenameReport),
    SyncError { path: String, error: String },
}

// ---------------------------------------------------------------------------
// Debouncing
// ---------------------------------------------------------------------------

/// What is to be done about a file.
#[derive(Debug, Clone, Copy, PartialEq, Eq, Structural)]
pub enum PendingActionKind {
    Created,
    Modified,
    Deleted,
}

/// A change that has not settled: the file, what is to be done, and when it last
/// changed.
#[derive(Debug)]
pub struct PendingEntry {
    pub path: String,
    pub kind: PendingActionKind,
    pub last_event_at: u64,
}

/// What a `PendingEntry` says.
pub struct PendingModel {
    pub path: Seq<char>,
    pub kind: PendingActionKind,
    pub last_event_at: u64,
}

impl View for PendingEntry {
    type V = PendingModel;

    open spec fn view(&self) -> PendingModel {
        PendingModel { path: self.path@, kind: self.kind, last_event_at: self.last_event_at }
    }
}

/// What two changes in a row come to; nothing where the second takes back the
/// first. A deletion followed by a creation is how editors replace a file.
pub open spec fn merged(first: PendingActionKind, second: PendingActionKind) -> Option<
    PendingActionKind,
> {
    match (first, second) {
        (PendingActionKind::Deleted, PendingActionKind::Created) => Some(
            PendingActionKind::Modified,
        ),
        (PendingActionKind::Created, PendingActionKind::Modified) => Some(
            PendingActionKind::Created,
        ),
        (PendingActionKind::Created, PendingActionKind::Deleted) => None,
        _ => Some(second),
    }
}

/// The first change from `i` on of the file at this path, or the length.
pub open spec fn pending_index(ps: Seq<PendingModel>, path: Seq<char>, i: int) -> int
    decreases ps.len() - i,
{
    if i >= ps.len() {
        ps.len() as int
    } else if path_key(ps[i].path) == path_key(path) {
        i
    } else {
        pending_index(ps, path, i + 1)
    }
}

/// The changes with one more.
pub open spec fn with_event(
    ps: Seq<PendingModel>,
    path: Seq<char>,
    kind: PendingActionKind,
    now: u64,
) -> Seq<PendingModel> {
    let i = pending_index(ps, path, 0);
    if i < ps.len() {
        match merged(ps[i].kind, kind) {
            Some(k) => ps.update(
                i,
                PendingModel { path: ps[i].path, kind: k, last_event_at: now },
            ),
            None => ps.remove(i),
        }
    } else {
        ps.push(PendingModel { path, kind, last_event_at: now })
    }
}

/// Whether a change is as old as the window.
pub open spec fn is_settled(p: PendingModel, now: u64, duration: u64) -> bool {
    (if now >= p.last_event_at {
        now - p.last_event_at
    } else {
        0
    }) >= duration
}

/// The changes that have settled, or those that have not.
pub open spec fn settled_part(ps: Seq<PendingModel>, now: u64, duration: u64, settled: bool) -> Seq<
    PendingModel,
>
    decreases ps.len(),
{
    if ps.len() == 0 {
        Seq::empty()
    } else {
        let before = settled_part(ps.drop_last(), now, duration, settled);
        if is_settled(ps.last(), now, duration) == settled {
            before.push(ps.last())
        } else {
            before
        }
    }
}

/// Changes that are waiting to settle.
#[derive(Debug)]
pub struct DebounceState {
    pub pending: Vec<PendingEntry>,
    pub duration: u64,
}

impl DebounceState {
    /// No changes, and a window of this length.
    pub fn new(duration: u64) -> (r: Self)
        ensures
            r.pending@.len() == 0,
            r.duration == duration,
    {
        DebounceState { pending: Vec::new(), duration }
    }

    /// Takes a change in.
    pub fn record_event(&mut self, path: &str, kind: PendingActionKind, now: u64)
        ensures
            views(final(self).pending@) == with_event(views(old(self).pending@), path@, kind, now),
            final(self).duration == old(self).duration,
    {
        broadcast use group_views;

        let key = path_key_text(path);
        let ghost all = views(self.pending@);
        let mut i: usize = 0;
        while i < self.pending.len()
            invariant
                i <= self.pending@.len(),
                all == views(self.pending@),
                all == views(old(self).pending@),
                self.duration == old(self).duration,
                key@ == path_key(path@),
                pending_index(all, path@, i as int) == pending_index(all, path@, 0),
            decreases self.pending.len() - i,
        {
            assert(all[i as int] == self.pending@[i as int]@);
            let other = path_key_text(self.pending[i].path.as_str());
            if same(other.as_str(), key.as_str()) {
                let entry = self.pending.remove(i);
                assert(views(self.pending@) =~= all.remove(i as int));
                let next: Option<PendingActionKind> = match (entry.kind, kind) {
                    (PendingActionKind::Deleted, PendingActionKind::Created) => Some(
                        PendingActionKind::Modified,
                    ),
                    (PendingActionKind::Created, PendingActionKind::Modified) => Some(
                        PendingActionKind::Created,
                    ),
                    (PendingActionKind::Created, PendingActionKind::Deleted) => None,
                    _ => Some(kind),
                };
                if let Some(k) = next {
                    let changed = PendingEntry { path: entry.path, kind: k, last_event_at: now };
                    self.pending.insert(i, changed);
                    assert(views(self.pending@) =~= all.update(i as int, changed@));
                }
                return;
            }
            i += 1;
        }
        self.pending.push(PendingEntry { path: path.to_owned(), kind, last_event_at: now });
    }

    /// Takes out the changes that have settled.
    pub fn drain_settled(&mut self, now: u64) -> (r: Vec<PendingEntry>)
        ensures
            views(r@) == settled_part(
                views(old(self).pending@),
                now,
                old(self).duration,
                true,
            ),
            views(final(self).pending@) == settled_part(
                views(old(self).pending@),
                now,
                old(self).duration,
                false,
            ),
            final(self).duration == old(self).duration,
    {
        broadcast use group_views;

        let mut all: Vec<PendingEntry> = Vec::new();
        std::mem::swap(&mut all, &mut self.pending);
        let ghost ps = views(all@);
        let duration: u64 = self.duration;
        let mut settled: Vec<PendingEntry> = Vec::new();
        let mut waiting: Vec<PendingEntry> = Vec::new();
        for entry in it: all
            invariant
                it.seq() == all@,
                ps == views(all@),
                views(settled@) == settled_part(ps.take(it.index() as int), now, duration, true),
                views(waiting@) == settled_part(ps.take(it.index() as int), now, duration, false),
        {
            let ghost n = it.index() as int;
            assert(ps.take(n + 1).drop_last() =~= ps.take(n));
            assert(ps[n] == entry@);
            if now.saturating_sub(entry.last_event_at) >= duration {
                settled.push(entry);
            } else {
                waiting.push(entry);
            }
        }
        assert(ps.take(ps.len() as int) =~= ps);
        self.pending = waiting;
        settled
    }
}

/// No two changes are of the same file.
pub open spec fn paths_distinct(ps: Seq<PendingModel>) -> bool {
    forall|i: int, j: int|
        0 <= i < j < ps.len() ==> path_key((#[trigger] ps[i]).path) != path_key(
            (#[trigger] ps[j]).path,
        )
}

proof fn lemma_pending_index(ps: Seq<PendingModel>, path: Seq<char>, i: int)
    requires
        0 <= i <= ps.len(),
    ensures
        i <= pending_index(ps, path, i) <= ps.len(),
        pending_index(ps, path, i) < ps.len() ==> path_key(ps[pending_index(ps, path, i)].path)
            == path_key(path),
        forall|j: int|
            i <= j < pending_index(ps, path, i) ==> path_key((#[trigger] ps[j]).path) != path_key(
                path,
            ),
    decreases ps.len() - i,
{
    if i < ps.len() && path_key(ps[i].path) != path_key(path) {
        lemma_pending_index(ps, path, i + 1);
    }
}

/// However events come in, at most one change waits for each file.
pub proof fn one_change_per_file(
    ps: Seq<PendingModel>,
    path: Seq<char>,
    kind: PendingActionKind,
    now: u64,
)
    requires
        paths_distinct(ps),
    ensures
        paths_distinct(with_event(ps, path, kind, now)),
{
    lemma_pending_index(ps, path, 0);
    let k = pending_index(ps, path, 0);
    let r = with_event(ps, path, kind, now);
    assert forall|i: int, j: int| 0 <= i < j < r.len() implies path_key((#[trigger] r[i]).path)
        != path_key((#[trigger] r[j]).path) by {
        if k < ps.len() {
            match merged(ps[k].kind, kind) {
                Some(_) => {
                    assert(r[i].path == ps[i].path && r[j].path == ps[j].path);
                },
                None => {
                    let a = if i < k {
                        i
                    } else {
                        i + 1
                    };
                    let b = if j < k {
                        j
                    } else {
                        j + 1
                    };
                    assert(r[i] == ps[a] && r[j] == ps[b]);
                },
            }
        } else if j < ps.len() {
            assert(r[i] == ps[i] && r[j] == ps[j]);
        } else {
            assert(r[i] == ps[i]);
        }
    }
}

/// A file that is deleted and created again while the window is open counts as
/// modified; one that is created and deleted again does not count at all.
pub proof fn replaced_file_counts_once(ps: Seq<PendingModel>, path: Seq<char>, t: u64, u: u64)
    requires
        pending_index(ps, path, 0) == ps.len(),
    ensures
        with_event(
            with_event(ps, path, PendingActionKind::Deleted, t),
            path,
            PendingActionKind::Created,
            u,
        ) == ps.push(
            PendingModel { path, kind: PendingActionKind::Modified, last_event_at: u },
        ),
        with_event(
            with_event(ps, path, PendingActionKind::Created, t),
            path,
            PendingActionKind::Deleted,
            u,
        ) == ps,
{
    lemma_pending_index(ps, path, 0);
    lemma_pushed_index(ps, path, PendingActionKind::Deleted, t, 0);
    lemma_pushed_index(ps, path, PendingActionKind::Created, t, 0);
    let a = with_event(ps, path, PendingActionKind::Deleted, t);
    let b = with_event(ps, path, PendingActionKind::Created, t);
    assert(a.update(
        ps.len() as int,
        PendingModel { path, kind: PendingActionKind::Modified, last_event_at: u },
    ) =~= ps.push(PendingModel { path, kind: PendingActionKind::Modified, last_event_at: u }));
    assert(b.remove(ps.len() as int) =~= ps);
}

proof fn lemma_pushed_index(
    ps: Seq<PendingModel>,
    path: Seq<char>,
    kind: PendingActionKind,
    t: u64,
    i: int,
)
    requires
        0 <= i <= ps.len(),
        forall|j: int| i <= j < ps.len() ==> path_key((#[trigger] ps[j]).path) != path_key(path),
    ensures
        pending_index(ps.push(PendingModel { path, kind, last_event_at: t }), path, i) == ps.len(),
    decreases ps.len() - i,
{
    if i < ps.len() {
        assert(path_key(ps[i].path) != path_key(path));
        lemma_pushed_index(ps, path, kind, t, i + 1);
    }
}

/// Nothing is taken out before it has waited for the whole window, and nothing
/// that has waited stays.
pub proof fn window_is_kept(ps: Seq<PendingModel>, now: u64, duration: u64)
    ensures
        forall|i: int|
            0 <= i < settled_part(ps, now, duration, true).len() ==> is_settled(
                #[trigger] settled_part(ps, now, duration, true)[i],
                now,
                duration,
            ),
        forall|i: int|
            0 <= i < settled_part(ps, now, duration, false).len() ==> !is_settled(
                #[trigger] settled_part(ps, now, duration, false)[i],
                now,
                duration,
            ),
        settled_part(ps, now, duration, true).len() + settled_part(ps, now, duration, false).len()
            == ps.len(),
    decreases ps.len(),
{
    if ps.len() > 0 {
        window_is_kept(ps.drop_last(), now, duration);
    }
}

// ---------------------------------------------------------------------------
// Which files matter
// ---------------------------------------------------------------------------

/// A component that is the name of a file or directory.
pub open spec fn is_plain_component(c: Seq<char>) -> bool {
    c != "/"@ && c != "."@ && c != ".."@
}

/// Whether one of the components is ignored.
pub open spec fn has_ignored(parts: Seq<Seq<char>>, ignored: Seq<Seq<char>>) -> bool {
    exists|i: int|
        0 <= i < parts.len() && is_plain_component(#[trigger] parts[i]) && ignored.contains(
            parts[i],
        )
}

/// Whether a file is a Markdown file below the root and in no ignored directory.
pub open spec fn is_watchable(path: Seq<char>, root: Seq<char>, ignored: Seq<Seq<char>>) -> bool {
    &&& match extension(path) {
        Some(e) => same_ignoring_case(e, "md"@) || same_ignoring_case(e, "markdown"@),
        None => false,
    }
    &&& is_within(path, root)
    &&& !has_ignored(components_of(path).skip(components_of(root).len() as int), ignored)
}

/// Whether a file is a Markdown file below the root and in no ignored directory.
pub fn is_watchable_file(path: &str, root: &str, ignored: &Vec<String>) -> (r: bool)
    ensures
        r == is_watchable(path@, root@, views(ignored@)),
{
    match path_extension(path) {
        None => {
            return false;
        },
        Some(e) => {
            if !eq_ignore_ascii_case(e.as_str(), "md") && !eq_ignore_ascii_case(
                e.as_str(),
                "markdown",
            ) {
                return false;
            }
        },
    }
    if !path_is_within(path, root) {
        return false;
    }
    let parts = path_components(path);
    let from: usize = path_components(root).len();
    let ghost ps = components_of(path@);
    let ghost rest = ps.skip(components_of(root@).len() as int);
    let mut i: usize = from;
    while i < parts.len()
        invariant
            from <= i <= parts@.len(),
            ps == views(parts@),
            ps == components_of(path@),
            from == components_of(root@).len(),
            rest == ps.skip(from as int),
            forall|j: int|
                0 <= j < i - from ==> !(is_plain_component(#[trigger] rest[j]) && views(
                    ignored@,
                ).contains(rest[j])),
        decreases parts.len() - i,
    {
        assert(rest[i - from] == parts@[i as int]@);
        let part = parts[i].as_str();
        let plain = !same(part, "/") && !same(part, ".") && !same(part, "..");
        if plain && holds_str(ignored, part) {
            return false;
        }
        i += 1;
    }
    true
}

/// The path of a file from the root, where it lies below it.
pub open spec fn relative_to(path: Seq<char>, root: Seq<char>) -> Option<Seq<char>> {
    if is_within(path, root) {
        Some(join(components_of(path).skip(components_of(root).len() as int), "/"@))
    } else {
        None
    }
}

/// The path of a file from the root.
pub fn relative_path(path: &str, root: &str) -> (r: Option<String>)
    ensures
        opt_view(r) == relative_to(path@, root@),
{
    broadcast use group_views;

    if !path_is_within(path, root) {
        return None;
    }
    let parts = path_components(path);
    let from: usize = path_components(root).len();
    let ghost ps = views(parts@);
    let mut rest: Vec<String> = Vec::new();
    let mut i: usize = from;
    assert(ps.subrange(from as int, from as int) =~= Seq::empty());
    while i < parts.len()
        invariant
            from <= i <= parts@.len(),
            ps == views(parts@),
            views(rest@) == ps.subrange(from as int, i as int),
        decreases parts.len() - i,
    {
        rest.push(parts[i].clone());
        i += 1;
        assert(ps.subrange(from as int, i as int) =~= ps.subrange(from as int, i as int - 1).push(
            ps[i as int - 1],
        ));
    }
    assert(ps.subrange(from as int, i as int) =~= ps.skip(from as int));
    Some(str_join(&rest, "/"))
}

// ---------------------------------------------------------------------------
// What is done about a change
// ---------------------------------------------------------------------------

/// What is done about a change that has settled.
#[derive(Debug)]
pub enum SettledAction {
    /// The file lies outside the vault.
    Ignore,
    /// The note at this path is taken out of the index.
    Delete { rel_path: String },
    /// The file at this path is looked at.
    Inspect { rel_path: String },
}

/// What is done about a change that has settled.
pub fn settled_action(abs_path: &str, root: &str, kind: PendingActionKind) -> (r: SettledAction)
    ensures
        match (relative_to(abs_path@, root@), kind, r) {
            (None, _, SettledAction::Ignore) => true,
            (Some(p), PendingActionKind::Deleted, SettledAction::Delete { rel_path }) => rel_path@
                == p,
            (Some(p), PendingActionKind::Created, SettledAction::Inspect { rel_path }) => rel_path@
                == p,
            (Some(p), PendingActionKind::Modified, SettledAction::Inspect { rel_path }) => rel_path@
                == p,
            _ => false,
        },
{
    match relative_path(abs_path, root) {
        None => SettledAction::Ignore,
        Some(rel_path) => match kind {
            PendingActionKind::Deleted => SettledAction::Delete { rel_path },
            PendingActionKind::Created => SettledAction::Inspect { rel_path },
            PendingActionKind::Modified => SettledAction::Inspect { rel_path },
        },
    }
}

/// What listeners are told when a note was taken out of the index, or could not
/// be.
pub fn deletion_event(abs_path: &str, rel_path: &str, outcome: Result<(), String>) -> (r: VaultSyncEvent)
    ensures
        match (outcome, r) {
            (Ok(_), VaultSyncEvent::NoteDeleted { path }) => path@ == rel_path@,
            (Err(e), VaultSyncEvent::SyncError { path, error }) => path@ == abs_path@ && error@
                == e@,
            _ => false,
        },
{
    match outcome {
        Ok(_) => VaultSyncEvent::NoteDeleted { path: rel_path.to_owned() },
        Err(error) => VaultSyncEvent::SyncError { path: abs_path.to_owned(), error },
    }
}

/// What the index knows of a file: the digest of its text, and when it was
/// changed and how large it was.
#[derive(Debug)]
pub struct Manifest {
    pub hash: String,
    pub mtime_ms: u64,
    pub size_bytes: u64,
}

/// What is done about a file once its size and time are known.
#[derive(Debug, Clone, Copy, PartialEq, Eq, Structural)]
pub enum Inspection {
    /// The file is gone: the note is taken out of the index.
    Gone,
    /// Neither time nor size changed.
    Unchanged,
    /// The text has to be read.
    Read,
}

/// What is done about a file, by its size and time and by what the index knows.
pub open spec fn inspection_of(meta: Option<(u64, u64)>, stored: Option<Manifest>) -> Inspection {
    match meta {
        None => Inspection::Gone,
        Some((size, mtime)) => match stored {
            Some(m) if m.mtime_ms == mtime && m.size_bytes == size => Inspection::Unchanged,
            _ => Inspection::Read,
        },
    }
}

/// What is done about a file, by its size and time and by what the index knows.
pub fn inspect(meta: Option<(u64, u64)>, stored: &Option<Manifest>) -> (r: Inspection)
    ensures
        r == inspection_of(meta, *stored),
{
    match meta {
        None => Inspection::Gone,
        Some((size, mtime)) => match stored {
            Some(m) => if m.mtime_ms == mtime && m.size_bytes == size {
                Inspection::Unchanged
            } else {
                Inspection::Read
            },
            None => Inspection::Read,
        },
    }
}

/// Whether a text with this digest is the one the index knows.
pub fn is_known_hash(hash: &str, stored: &Option<Manifest>) -> (r: bool)
    ensures
        r == (stored matches Some(m) && m.hash@ == hash@),
{
    match stored {
        Some(m) => same(m.hash.as_str(), hash),
        None => false,
    }
}

/// The parsed note that is to be stored; nothing where the index knows this very
/// text.
pub fn changed_document(
    parser: &MarkdownParser,
    rel_path: &str,
    content: &str,
    stored: &Option<Manifest>,
) -> (r: Option<ParsedDocument>)
    ensures
        match r {
            Some(doc) => !(stored matches Some(m) && m.hash@ == sha256_hex_of(content@)) && doc@
                == parsed(rel_path@, content@),
            None => stored matches Some(m) && m.hash@ == sha256_hex_of(content@),
        },
{
    let hash = sha256_hex(content);
    if is_known_hash(hash.as_str(), stored) {
        None
    } else {
        Some(parser.parse_file(rel_path, content))
    }
}

/// What listeners are told when a file could not be read.
pub fn read_error_event(abs_path: &str, error: &str) -> (r: VaultSyncEvent)
    ensures
        r matches VaultSyncEvent::SyncError { path, error: e } && path@ == abs_path@ && e@
            == "Failed to read file: "@ + error@,
{
    let mut e = "Failed to read file: ".to_owned();
    e.append(error);
    VaultSyncEvent::SyncError { path: abs_path.to_owned(), error: e }
}

/// What listeners are told when a note was stored, or could not be.
pub fn stored_event(
    abs_path: &str,
    rel_path: &str,
    doc: &ParsedDocument,
    outcome: Result<(), String>,
) -> (r: VaultSyncEvent)
    ensures
        match (outcome, r) {
            (Ok(_), VaultSyncEvent::NoteIndexed { path, word_count, chunks_count }) => path@
                == rel_path@ && word_count == doc.word_count && chunks_count == doc.chunks@.len(),
            (Err(e), VaultSyncEvent::SyncError { path, error }) => path@ == abs_path@ && error@
                == "Database transaction failed: "@ + e@,
            _ => false,
        },
{
    match outcome {
        Ok(_) => VaultSyncEvent::NoteIndexed {
            path: rel_path.to_owned(),
            word_count: doc.word_count,
            chunks_count: doc.chunks.len(),
        },
        Err(e) => {
            let mut error = "Database transaction failed: ".to_owned();
            error.append(e.as_str());
            VaultSyncEvent::SyncError { path: abs_path.to_owned(), error }
        },
    }
}

// ---------------------------------------------------------------------------
// What holds of changes
// ---------------------------------------------------------------------------

/// What is taken out are the changes that are at least as old as the window, in their
/// order, and what stays are the others.
pub proof fn old_changes_are_taken_out(ps: Seq<PendingModel>, now: u64, duration: u64)
    ensures
        settled_part(ps, now, duration, true) == ps.filter(
            |p: PendingModel| duration == 0 || p.last_event_at + duration <= now,
        ),
        settled_part(ps, now, duration, false) == ps.filter(
            |p: PendingModel| duration > 0 && p.last_event_at + duration > now,
        ),
    decreases ps.len(),
{
    reveal(Seq::filter);
    if ps.len() > 0 {
        old_changes_are_taken_out(ps.drop_last(), now, duration);
    } else {
        assert(settled_part(ps, now, duration, true) =~= ps);
        assert(settled_part(ps, now, duration, false) =~= ps);
    }
}

/// Whether a change of a file waits: of this kind, and last made at this time.
pub open spec fn is_pending(
    ps: Seq<PendingModel>,
    path: Seq<char>,
    kind: PendingActionKind,
    at: u64,
) -> bool {
    exists|i: int|
        0 <= i < ps.len() && path_key((#[trigger] ps[i]).path) == path_key(path) && ps[i].kind
            == kind && ps[i].last_event_at == at
}

/// Whether any change of a file waits.
pub open spec fn has_pending(ps: Seq<PendingModel>, path: Seq<char>) -> bool {
    exists|i: int| 0 <= i < ps.len() && path_key((#[trigger] ps[i]).path) == path_key(path)
}

/// An event starts the window of its file anew. It counts as itself, but a file that was
/// deleted and is created again counts as modified, one that was created and is modified
/// stays created, and one that was created and is deleted does not count any more.
pub proof fn event_counts_with_the_one_before(
    ps: Seq<PendingModel>,
    path: Seq<char>,
    kind: PendingActionKind,
    now: u64,
    first: PendingActionKind,
    at: u64,
)
    requires
        paths_distinct(ps),
    ensures
        !has_pending(ps, path) ==> is_pending(with_event(ps, path, kind, now), path, kind, now),
        is_pending(ps, path, first, at) ==> {
            let r = with_event(ps, path, kind, now);
            &&& first == PendingActionKind::Created && kind == PendingActionKind::Deleted
                ==> !has_pending(r, path)
            &&& first == PendingActionKind::Created && kind != PendingActionKind::Deleted
                ==> is_pending(r, path, PendingActionKind::Created, now)
            &&& first == PendingActionKind::Deleted && kind == PendingActionKind::Created
                ==> is_pending(r, path, PendingActionKind::Modified, now)
            &&& first == PendingActionKind::Deleted && kind != PendingActionKind::Created
                ==> is_pending(r, path, kind, now)
            &&& first == PendingActionKind::Modified ==> is_pending(r, path, kind, now)
        },
{
    lemma_pending_index(ps, path, 0);
    let k = pending_index(ps, path, 0);
    let r = with_event(ps, path, kind, now);
    if !has_pending(ps, path) {
        assert(k == ps.len());
        assert(r[k].path == path);
    }
    if is_pending(ps, path, first, at) {
        let i = choose|i: int|
            0 <= i < ps.len() && path_key((#[trigger] ps[i]).path) == path_key(path) && ps[i].kind
                == first && ps[i].last_event_at == at;
        if i < k {
            assert(path_key(ps[i].path) != path_key(path));
        } else if k < i {
            assert(path_key(ps[k].path) != path_key(ps[i].path));
        }
        assert(i == k);
        match merged(first, kind) {
            Some(m) => {
                assert(r[k].kind == m && path_key(r[k].path) == path_key(path));
            },
            None => {
                if has_pending(r, path) {
                    let j = choose|j: int|
                        0 <= j < r.len() && path_key((#[trigger] r[j]).path) == path_key(path);
                    if j < k {
                        assert(r[j] == ps[j]);
                    } else {
                        assert(r[j] == ps[j + 1]);
                    }
                }
            },
        }
    }
}

/// An event of one file leaves the changes of every other file as they are.
pub proof fn event_leaves_other_files(
    ps: Seq<PendingModel>,
    path: Seq<char>,
    kind: PendingActionKind,
    now: u64,
    other: Seq<char>,
    k: PendingActionKind,
    at: u64,
)
    requires
        path_key(other) != path_key(path),
    ensures
        is_pending(with_event(ps, path, kind, now), other, k, at) == is_pending(ps, other, k, at),
{
    lemma_pending_index(ps, path, 0);
    let p = pending_index(ps, path, 0);
    let r = with_event(ps, path, kind, now);
    let gone = p < ps.len() && merged(ps[p].kind, kind) is None;
    if is_pending(ps, other, k, at) {
        let i = choose|i: int|
            0 <= i < ps.len() && path_key((#[trigger] ps[i]).path) == path_key(other) && ps[i].kind
                == k && ps[i].last_event_at == at;
        assert(i != p);
        if gone && i > p {
            assert(r[i - 1] == ps[i]);
        } else {
            assert(r[i] == ps[i]);
        }
    }
    if is_pending(r, other, k, at) {
        let i = choose|i: int|
            0 <= i < r.len() && path_key((#[trigger] r[i]).path) == path_key(other) && r[i].kind == k
                && r[i].last_event_at == at;
        if gone && i >= p {
            assert(r[i] == ps[i + 1]);
        } else {
            assert(i != p);
            assert(r[i] == ps[i]);
        }
    }
}

/// A file is watched exactly if it is a Markdown file, by an extension in any case, lies
/// below the root, and no directory on the way there from the root is ignored.
pub proof fn markdown_files_below_the_root_are_watched(
    path: Seq<char>,
    root: Seq<char>,
    ignored: Seq<Seq<char>>,
)
    ensures
        extension(path) is None ==> !is_watchable(path, root, ignored),
        !is_within(path, root) ==> !is_watchable(path, root, ignored),
        extension(path) matches Some(e) ==> (!same_ignoring_case(e, "md"@) && !same_ignoring_case(
            e,
            "markdown"@,
        ) ==> !is_watchable(path, root, ignored)),
        forall|i: int|
            components_of(root).len() <= i < components_of(path).len() && #[trigger] components_of(
                path,
            )[i] != "/"@ && components_of(path)[i] != "."@ && components_of(path)[i] != ".."@
                && ignored.contains(components_of(path)[i]) ==> !is_watchable(path, root, ignored),
        is_within(path, root) && (extension(path) matches Some(e) && (same_ignoring_case(e, "md"@)
            || same_ignoring_case(e, "markdown"@))) && (forall|i: int|
            components_of(root).len() <= i < components_of(path).len() ==> !ignored.contains(
                #[trigger] components_of(path)[i],
            )) ==> is_watchable(path, root, ignored),
{
    let from = components_of(root).len() as int;
    let all = components_of(path);
    let rest = all.skip(from);
    assert forall|i: int|
        from <= i < all.len() && #[trigger] all[i] != "/"@ && all[i] != "."@ && all[i] != ".."@
            && ignored.contains(all[i]) implies !is_watchable(path, root, ignored) by {
        if is_within(path, root) {
            assert(rest[i - from] == all[i]);
            assert(has_ignored(rest, ignored));
        }
    }
    if is_within(path, root) && (forall|i: int|
        from <= i < all.len() ==> !ignored.contains(#[trigger] all[i])) {
        if has_ignored(rest, ignored) {
            let i = choose|i: int|
                0 <= i < rest.len() && is_plain_component(#[trigger] rest[i]) && ignored.contains(
                    rest[i],
                );
            assert(all[i + from] == rest[i]);
        }
    }
}

/// A file is gone where there is nothing; it is unchanged only where both its time and
/// its size are what the index knows; else it is read.
pub proof fn file_is_read_unless_time_and_size_are_known(
    meta: Option<(u64, u64)>,
    stored: Option<Manifest>,
)
    ensures
        meta is None <==> inspection_of(meta, stored) == Inspection::Gone,
        inspection_of(meta, stored) == Inspection::Unchanged <==> (match (meta, stored) {
            (Some((size, mtime)), Some(m)) => m.size_bytes == size && m.mtime_ms == mtime,
            _ => false,
        }),
{
}

} // verus!
