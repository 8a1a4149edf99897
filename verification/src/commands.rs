//! What the commands decide: which files are notes, which of them are indexed
//! again, which hits are shown, and when a check fails.

use crate::diagnostics::{DiagnosticCode, DiagnosticSeverity};
use crate::moc::{tag_matches, tag_under, topic_key, topic_key_text};
use crate::paths::{extension, path_extension};
use crate::text::{
    contains_str, join, same, split_str, str_contains, str_join, str_range, str_split_str,
    str_starts_with, str_trim, trim,
};
use crate::watcher::Manifest;
use vstd::prelude::*;

verus! {

/// Whether a path below the vault belongs to a tool and not to the vault.
pub open spec fn is_internal_path(rel: Seq<char>) -> bool {
    ".atlaswiki"@.is_prefix_of(rel) || ".git"@.is_prefix_of(rel) || ".obsidian"@.is_prefix_of(rel)
}

/// Whether a path names a Markdown file.
pub open spec fn is_markdown(path: Seq<char>) -> bool {
    extension(path) == Some("md"@)
}

/// Whether a file of the vault is indexed and checked.
pub fn is_indexable(rel: &str) -> (r: bool)
    ensures
        r == (is_markdown(rel@) && !is_internal_path(rel@)),
{
    match path_extension(rel) {
        Some(ext) => same(ext.as_str(), "md") && !str_starts_with(rel, ".atlaswiki")
            && !str_starts_with(rel, ".git") && !str_starts_with(rel, ".obsidian"),
        None => false,
    }
}

/// Whether a file of the vault takes part in its maps.
pub fn is_mapped(rel: &str) -> (r: bool)
    ensures
        r == (is_markdown(rel@) && !is_internal_path(rel@) && !contains_str(
            rel@,
            "node_modules"@,
        )),
{
    is_indexable(rel) && !str_contains(rel, "node_modules")
}

/// What indexing does about a file once its size and time are known.
#[derive(Debug, Clone, Copy, PartialEq, Eq, Structural)]
pub enum IndexStep {
    /// The file is as the index knows it.
    Skip,
    /// The file is indexed unless its text is the one the index knows.
    Compare,
    /// The file is indexed.
    Take,
}

/// What indexing does about a file; everything is indexed again on request.
pub fn index_step(full: bool, stored: &Option<Manifest>, mtime_ms: u64, size: u64) -> (r: IndexStep)
    ensures
        r == match *stored {
            Some(m) if !full => if m.mtime_ms == mtime_ms && m.size_bytes == size {
                IndexStep::Skip
            } else {
                IndexStep::Compare
            },
            _ => IndexStep::Take,
        },
{
    if full {
        return IndexStep::Take;
    }
    match stored {
        Some(m) => if m.mtime_ms == mtime_ms && m.size_bytes == size {
            IndexStep::Skip
        } else {
            IndexStep::Compare
        },
        None => IndexStep::Take,
    }
}

/// The identifier of a note, from the digest of its text.
pub fn document_id(content_hash: &str) -> (r: String)
    requires
        content_hash@.len() >= 16,
    ensures
        r@ == "doc_"@ + content_hash@.take(16),
{
    let start = str_range(content_hash, 0, 16);
    assert(start@ =~= content_hash@.take(16));
    let mut r = "doc_".to_owned();
    r.append(start.as_str());
    r
}

/// Whether a hit in a note with these tags is shown: one of them is the wanted tag
/// or lies below it.
pub open spec fn passes(tags: Seq<String>, wanted: Option<Seq<char>>) -> bool {
    match wanted {
        Some(w) => exists|k: int|
            0 <= k < tags.len() && tag_under((#[trigger] tags[k])@, topic_key(w)),
        None => true,
    }
}

/// The places of the hits that pass, among the first `n`, at most `limit` of them.
pub open spec fn shown(
    tags: Seq<Vec<String>>,
    wanted: Option<Seq<char>>,
    limit: nat,
    n: int,
) -> Seq<usize>
    decreases n,
{
    if n <= 0 {
        Seq::empty()
    } else {
        let some = shown(tags, wanted, limit, n - 1);
        if some.len() < limit && passes(tags[n - 1]@, wanted) {
            some.push((n - 1) as usize)
        } else {
            some
        }
    }
}

fn has_tag(tags: &Vec<String>, wanted: Option<&str>) -> (r: bool)
    ensures
        r == passes(
            tags@,
            match wanted {
                Some(w) => Some(w@),
                None => None,
            },
        ),
{
    let key = match wanted {
        Some(w) => topic_key_text(w),
        None => return true,
    };
    let mut k: usize = 0;
    while k < tags.len()
        invariant
            k <= tags@.len(),
            wanted is Some,
            key@ == topic_key(wanted->0@),
            forall|j: int| 0 <= j < k ==> !tag_under((#[trigger] tags@[j])@, key@),
        decreases tags@.len() - k,
    {
        if tag_matches(tags[k].as_str(), key.as_str(), false) {
            return true;
        }
        k += 1;
    }
    false
}

/// The places of the hits that a search shows, by the tags of the note that each is
/// in.
pub fn shown_hits(tags: &Vec<Vec<String>>, wanted: Option<&str>, limit: usize) -> (r: Vec<usize>)
    ensures
        r@ == shown(
            tags@,
            match wanted {
                Some(w) => Some(w@),
                None => None,
            },
            limit as nat,
            tags@.len() as int,
        ),
{
    let ghost want = match wanted {
        Some(w) => Some(w@),
        None => None,
    };
    let mut r: Vec<usize> = Vec::new();
    let mut i: usize = 0;
    while i < tags.len()
        invariant
            i <= tags@.len(),
            want == match wanted {
                Some(w) => Some(w@),
                None => None,
            },
            r@ == shown(tags@, want, limit as nat, i as int),
        decreases tags@.len() - i,
    {
        if r.len() < limit && has_tag(&tags[i], wanted) {
            r.push(i);
        }
        i += 1;
    }
    r
}

/// What turns the marks of a match on in a terminal.
pub const MATCH_ON: &'static str = "\u{1b}[1;33m";

/// What turns the marks of a match off in a terminal.
pub const MATCH_OFF: &'static str = "\u{1b}[0m";

/// A snippet with its matches marked for a terminal.
pub open spec fn highlighted(snippet: Seq<char>) -> Seq<char> {
    let on = join(split_str(snippet, "<b>"@), MATCH_ON@);
    trim(join(split_str(on, "</b>"@), MATCH_OFF@))
}

/// A snippet with its matches marked for a terminal.
pub fn highlight(snippet: &str) -> (r: String)
    ensures
        r@ == highlighted(snippet@),
{
    proof {
        reveal_strlit("<b>");
        reveal_strlit("</b>");
    }
    let parts = str_split_str(snippet, "<b>");
    let on = str_join(&parts, MATCH_ON);
    let parts = str_split_str(on.as_str(), "</b>");
    let off = str_join(&parts, MATCH_OFF);
    str_trim(off.as_str())
}

/// The label of a finding.
pub fn badge(severity: DiagnosticSeverity, code: DiagnosticCode) -> (r: String)
    ensures
        r@ == match severity {
            DiagnosticSeverity::Error => "error["@,
            DiagnosticSeverity::Warning => "warning["@,
            DiagnosticSeverity::Info => "info["@,
        } + code.spec_code() + "]"@,
{
    let mut r = match severity {
        DiagnosticSeverity::Error => "error[".to_owned(),
        DiagnosticSeverity::Warning => "warning[".to_owned(),
        DiagnosticSeverity::Info => "info[".to_owned(),
    };
    r.append(code.code_str());
    r.append("]");
    r
}

/// Whether a check ends in failure: a strict one does as soon as it finds anything.
pub fn check_fails(strict: bool, findings: usize) -> (r: bool)
    ensures
        r == (strict && findings > 0),
{
    strict && findings > 0
}

/// A search shows the first hits that pass, in their order, as many as asked for: every
/// hit that it shows passes, and one that passes is left out only where as many as asked
/// for come before it.
pub proof fn first_passing_hits_are_shown(
    tags: Seq<Vec<String>>,
    wanted: Option<Seq<char>>,
    limit: nat,
    n: int,
)
    requires
        0 <= n <= tags.len() <= usize::MAX,
    ensures
        shown(tags, wanted, limit, n).len() <= limit,
        forall|i: int, j: int|
            0 <= i < j < shown(tags, wanted, limit, n).len() ==> (#[trigger] shown(
                tags,
                wanted,
                limit,
                n,
            )[i]) < (#[trigger] shown(tags, wanted, limit, n)[j]),
        forall|i: int|
            0 <= i < shown(tags, wanted, limit, n).len() ==> (#[trigger] shown(
                tags,
                wanted,
                limit,
                n,
            )[i]) < n && may_show(tags[shown(tags, wanted, limit, n)[i] as int]@, wanted),
        forall|k: int|
            0 <= k < n && may_show((#[trigger] tags[k])@, wanted) ==> shown(
                tags,
                wanted,
                limit,
                n,
            ).contains(k as usize) || (shown(tags, wanted, limit, n).len() == limit && forall|i: int|
                0 <= i < limit ==> (#[trigger] shown(tags, wanted, limit, n)[i]) < k),
    decreases n,
{
    if n > 0 {
        first_passing_hits_are_shown(tags, wanted, limit, n - 1);
        lemma_may_show(tags[n - 1]@, wanted);
        let before = shown(tags, wanted, limit, n - 1);
        let r = shown(tags, wanted, limit, n);
        assert forall|i: int| 0 <= i < r.len() implies (#[trigger] r[i]) < n && may_show(
            tags[r[i] as int]@,
            wanted,
        ) by {
            if i < before.len() {
                assert(r[i] == before[i]);
            }
        }
        assert forall|i: int, j: int| 0 <= i < j < r.len() implies (#[trigger] r[i]) < (
        #[trigger] r[j]) by {
            assert(r[i] == before[i]);
            if j < before.len() {
                assert(r[j] == before[j]);
            }
        }
        assert forall|k: int| 0 <= k < n && may_show((#[trigger] tags[k])@, wanted) implies r.contains(
            k as usize,
        ) || (r.len() == limit && forall|i: int| 0 <= i < limit ==> (#[trigger] r[i]) < k) by {
            if k < n - 1 {
                if before.contains(k as usize) {
                    let q = choose|q: int| 0 <= q < before.len() && before[q] == k as usize;
                    assert(r[q] == k as usize);
                } else {
                    assert(r == before);
                }
            } else if before.len() < limit {
                assert(r[before.len() as int] == k as usize);
            }
        }
    }
}

/// Whether a hit in a note with these tags may be shown: no tag is asked for, or one of
/// them is the wanted one or lies below it, hashes and case aside.
pub open spec fn may_show(tags: Seq<String>, wanted: Option<Seq<char>>) -> bool {
    wanted is None || exists|k: int|
        0 <= k < tags.len() && crate::moc::tag_is_about(
            (#[trigger] tags[k])@,
            crate::text::lowercase(crate::text::trim_start_char(trim(wanted->0), '#')),
            false,
        )
}

proof fn lemma_may_show(tags: Seq<String>, wanted: Option<Seq<char>>)
    ensures
        may_show(tags, wanted) == passes(tags, wanted),
{
    if wanted is Some {
        let key = topic_key(wanted->0);
        assert forall|k: int| 0 <= k < tags.len() implies crate::moc::tag_is_about(
            (#[trigger] tags[k])@,
            key,
            false,
        ) == tag_under(tags[k]@, key) by {
            crate::moc::lemma_tag_is_about(tags[k]@, key, false);
        }
        if passes(tags, wanted) {
            let k = choose|k: int| 0 <= k < tags.len() && tag_under((#[trigger] tags[k])@, key);
            assert(crate::moc::tag_is_about(tags[k]@, key, false));
        }
        if may_show(tags, wanted) {
            let k = choose|k: int|
                0 <= k < tags.len() && crate::moc::tag_is_about((#[trigger] tags[k])@, key, false);
            assert(tag_under(tags[k]@, key));
        }
    }
}

/// Nothing below a tool's own directory is part of the vault.
pub proof fn tool_directories_are_left_out(rel: Seq<char>, more: Seq<char>)
    ensures
        is_internal_path(".git"@ + more),
        is_internal_path(".obsidian"@ + more),
        is_internal_path(".atlaswiki"@ + more),
        is_internal_path(rel) ==> rel.len() > 0 && rel[0] == '.',
        is_markdown(rel) <==> extension(rel) == Some("md"@),
{
    assert(".git"@ =~= (".git"@ + more).take(".git"@.len() as int));
    assert(".obsidian"@ =~= (".obsidian"@ + more).take(".obsidian"@.len() as int));
    assert(".atlaswiki"@ =~= (".atlaswiki"@ + more).take(".atlaswiki"@.len() as int));
    reveal_strlit(".git");
    reveal_strlit(".obsidian");
    reveal_strlit(".atlaswiki");
    if ".git"@.is_prefix_of(rel) {
        assert(rel.take(4)[0] == '.');
    }
    if ".obsidian"@.is_prefix_of(rel) {
        assert(rel.take(9)[0] == '.');
    }
    if ".atlaswiki"@.is_prefix_of(rel) {
        assert(rel.take(10)[0] == '.');
    }
}

} // verus!
