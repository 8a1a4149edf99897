//! Boundaries: paths that stay in the vault, text that is safe to show, and
//! limits on what is read.

use crate::paths::{
    all_names, components_of, is_absolute, is_name, is_within, join_paths, lemma_joined_names,
    lemma_names_are_names, names_of, path_components, path_is_within, path_join, path_names,
};
use crate::text::{
    ascii_alphabetic, ascii_lower, char_ascii_lower, char_is_whitespace, chars_of, group_views,
    is_white, join, opt_view, replace_char, same, str_contains_char, str_join, str_replace_char,
    str_starts_with, views,
};
use vstd::hash_set::StringHashSet;
use vstd::prelude::*;

verus! {

// ---------------------------------------------------------------------------
// Errors
// ---------------------------------------------------------------------------

/// Why something was refused.
#[derive(Debug, PartialEq, Eq)]
pub enum SecurityError {
    ParentTraversalAttempt,
    AbsolutePathEscape(String),
    InvalidCharacters,
    SymlinkEscapesRoot { target: String },
    FileTooLarge { size: u64, max_size: u64 },
    FrontmatterTooLarge(usize),
    YamlBombDetected(usize),
    EmbedDepthExceeded(usize),
    CyclicEmbedDetected(String),
    IoError(String),
}

impl SecurityError {
    /// The error in words.
    pub open spec fn words(&self) -> Seq<char> {
        match *self {
            SecurityError::ParentTraversalAttempt =>
                "Path traversal detected: link target attempts to escape vault root ('..')"@,
            SecurityError::AbsolutePathEscape(p) => "Absolute path escape detected: '"@ + p@ + "'"@,
            SecurityError::InvalidCharacters =>
                "Path contains forbidden characters or null bytes"@,
            SecurityError::SymlinkEscapesRoot { target } => "Symlink target escapes vault root: '"@
                + target@ + "' is outside vault"@,
            SecurityError::FileTooLarge { size, max_size } => "File size "@
                + crate::text::decimal(size as nat) + " bytes exceeds maximum allowed limit of "@
                + crate::text::decimal(max_size as nat) + " bytes"@,
            SecurityError::FrontmatterTooLarge(n) =>
                "Frontmatter exceeds maximum size limit of "@ + crate::text::decimal(n as nat)
                + " bytes"@,
            SecurityError::YamlBombDetected(n) => "YAML alias/anchor bomb detected: found "@
                + crate::text::decimal(n as nat) + " aliases/anchors"@,
            SecurityError::EmbedDepthExceeded(n) => "Embed recursion depth exceeded (max "@
                + crate::text::decimal(n as nat) + ")"@,
            SecurityError::CyclicEmbedDetected(note) => "Cyclic embed detected for note '"@ + note@
                + "'"@,
            SecurityError::IoError(e) => "IO error: "@ + e@,
        }
    }

    /// The error in words.
    pub fn message(&self) -> (r: String)
        ensures
            r@ == self.words(),
    {
        match self {
            SecurityError::ParentTraversalAttempt =>
                "Path traversal detected: link target attempts to escape vault root ('..')".to_owned(),
            SecurityError::AbsolutePathEscape(p) => around(
                "Absolute path escape detected: '",
                p.as_str(),
                "'",
            ),
            SecurityError::InvalidCharacters =>
                "Path contains forbidden characters or null bytes".to_owned(),
            SecurityError::SymlinkEscapesRoot { target } => around(
                "Symlink target escapes vault root: '",
                target.as_str(),
                "' is outside vault",
            ),
            SecurityError::FileTooLarge { size, max_size } => {
                let a = crate::text::to_decimal(*size);
                let b = crate::text::to_decimal(*max_size);
                let mut s = around(
                    "File size ",
                    a.as_str(),
                    " bytes exceeds maximum allowed limit of ",
                );
                s.append(b.as_str());
                s.append(" bytes");
                s
            },
            SecurityError::FrontmatterTooLarge(n) => {
                let d = crate::text::to_decimal(*n as u64);
                around("Frontmatter exceeds maximum size limit of ", d.as_str(), " bytes")
            },
            SecurityError::YamlBombDetected(n) => {
                let d = crate::text::to_decimal(*n as u64);
                around("YAML alias/anchor bomb detected: found ", d.as_str(), " aliases/anchors")
            },
            SecurityError::EmbedDepthExceeded(n) => {
                let d = crate::text::to_decimal(*n as u64);
                around("Embed recursion depth exceeded (max ", d.as_str(), ")")
            },
            SecurityError::CyclicEmbedDetected(note) => around(
                "Cyclic embed detected for note '",
                note.as_str(),
                "'",
            ),
            SecurityError::IoError(e) => {
                let mut s = "IO error: ".to_owned();
                s.append(e.as_str());
                s
            },
        }
    }
}

fn around(a: &str, what: &str, b: &str) -> (r: String)
    ensures
        r@ == a@ + what@ + b@,
{
    let mut s = a.to_owned();
    s.append(what);
    s.append(b);
    s
}

// ---------------------------------------------------------------------------
// Paths
// ---------------------------------------------------------------------------

/// Where names lead: a name goes down, `..` goes up. There is no place above the
/// first.
pub open spec fn walked(names: Seq<Seq<char>>) -> Option<Seq<Seq<char>>>
    decreases names.len(),
{
    if names.len() == 0 {
        Some(Seq::empty())
    } else {
        match walked(names.drop_last()) {
            None => None,
            Some(at) => if names.last() == ".."@ {
                if at.len() == 0 {
                    None
                } else {
                    Some(at.drop_last())
                }
            } else {
                Some(at.push(names.last()))
            },
        }
    }
}

/// The text with slashes only.
pub open spec fn slashed(raw: Seq<char>) -> Seq<char> {
    replace_char(raw, '\\', '/')
}

/// Whether a path begins at the root or with a drive letter.
pub open spec fn is_rooted(path: Seq<char>) -> bool {
    is_absolute(path) || (path.len() >= 2 && path[1] == ':' && ascii_alphabetic(path[0]))
}

/// Whether a raw path passes the lexical check.
pub open spec fn is_clean(raw: Seq<char>) -> bool {
    !raw.contains('\0') && !is_rooted(slashed(raw)) && walked(names_of(slashed(raw))) is Some
}

/// Where components lead: `..` goes up as long as there is something above.
pub open spec fn settled(parts: Seq<Seq<char>>) -> Seq<Seq<char>>
    decreases parts.len(),
{
    if parts.len() == 0 {
        Seq::empty()
    } else {
        let at = settled(parts.drop_last());
        if parts.last() == ".."@ {
            if at.len() == 0 {
                at
            } else {
                at.drop_last()
            }
        } else if parts.last() == "."@ {
            at
        } else {
            at.push(parts.last())
        }
    }
}

/// The path with these components.
pub open spec fn path_of_components(parts: Seq<Seq<char>>) -> Seq<char> {
    if parts.len() > 0 && parts[0] == "/"@ {
        "/"@ + join(parts.skip(1), "/"@)
    } else {
        join(parts, "/"@)
    }
}

/// What the disk says of a path.
#[derive(Debug)]
pub enum OnDisk {
    /// Nothing is there.
    Absent,
    /// Something is there, and this is its canonical path.
    At(String),
    /// Something is there, and its canonical path could not be found out.
    Failed(String),
}

/// The directory that links must not leave, by its canonical path.
#[derive(Debug)]
pub struct VaultRoot {
    canonical_root: String,
}

impl VaultRoot {
    /// The canonical path of the vault.
    pub closed spec fn root(&self) -> Seq<char> {
        self.canonical_root@
    }

    /// The vault at a canonical path, or the error with which it was sought.
    pub fn new(canonical: Result<String, String>) -> (r: Result<Self, SecurityError>)
        ensures
            match (canonical, r) {
                (Ok(p), Ok(v)) => v.root() == p@,
                (Err(e), Err(SecurityError::IoError(s))) => s@ == e@,
                _ => false,
            },
    {
        match canonical {
            Ok(p) => Ok(VaultRoot { canonical_root: p }),
            Err(e) => Err(SecurityError::IoError(e)),
        }
    }

    /// The canonical path of the vault.
    pub fn canonical_path(&self) -> (r: &str)
        ensures
            r@ == self.root(),
    {
        self.canonical_root.as_str()
    }

    /// The path within the vault that a raw path names, with `.` and `..`
    /// resolved and without touching the disk. Paths that begin at the root or
    /// lead out of the vault are refused.
    pub fn lexical_sanitize_relative(&self, raw_path: &str) -> (r: Result<String, SecurityError>)
        ensures
            match r {
                Ok(p) => {
                    &&& is_clean(raw_path@)
                    &&& p@ == join(walked(names_of(slashed(raw_path@))).unwrap(), "/"@)
                },
                Err(SecurityError::InvalidCharacters) => raw_path@.contains('\0'),
                Err(SecurityError::AbsolutePathEscape(s)) => {
                    &&& !raw_path@.contains('\0')
                    &&& is_rooted(slashed(raw_path@))
                    &&& s@ == raw_path@
                },
                Err(SecurityError::ParentTraversalAttempt) => {
                    &&& !raw_path@.contains('\0')
                    &&& !is_rooted(slashed(raw_path@))
                    &&& walked(names_of(slashed(raw_path@))) is None
                },
                Err(_) => false,
            },
    {
        broadcast use group_views;

        if str_contains_char(raw_path, '\0') {
            return Err(SecurityError::InvalidCharacters);
        }
        let normalized = str_replace_char(raw_path, '\\', '/');
        let v = chars_of(normalized.as_str());
        if v.len() > 0 && v[0] == '/' {
            return Err(SecurityError::AbsolutePathEscape(raw_path.to_owned()));
        }
        if v.len() >= 2 && v[1] == ':' && (('a' <= v[0] && v[0] <= 'z') || ('A' <= v[0] && v[0]
            <= 'Z')) {
            return Err(SecurityError::AbsolutePathEscape(raw_path.to_owned()));
        }
        let names = path_names(normalized.as_str());
        let ghost all = views(names@);
        let mut stack: Vec<String> = Vec::new();
        let mut i: usize = 0;
        while i < names.len()
            invariant
                i <= names@.len(),
                all == views(names@),
                all == names_of(slashed(raw_path@)),
                !raw_path@.contains('\0'),
                !is_rooted(slashed(raw_path@)),
                walked(all.take(i as int)) == Some(views(stack@)),
            decreases names.len() - i,
        {
            assert(all.take(i as int + 1).drop_last() =~= all.take(i as int));
            if same(names[i].as_str(), "..") {
                let ghost at = views(stack@);
                if stack.len() == 0 {
                    proof {
                        lemma_walked_fails(all, i as int + 1);
                    }
                    return Err(SecurityError::ParentTraversalAttempt);
                }
                stack.pop();
                assert(views(stack@) =~= at.drop_last());
            } else {
                stack.push(names[i].clone());
            }
            i += 1;
        }
        assert(all.take(i as int) =~= all);
        Ok(str_join(&stack, "/"))
    }

    /// The path at which a target lies for a reader in `base_rel_dir`, as far as
    /// its text says.
    pub open spec fn candidate(&self, base: Seq<char>, raw: Seq<char>) -> Seq<char> {
        path_join(
            path_join(self.root(), base),
            join(walked(names_of(slashed(raw))).unwrap(), "/"@),
        )
    }

    /// The candidate path with `.` and `..` resolved.
    pub open spec fn settled_candidate(&self, base: Seq<char>, raw: Seq<char>) -> Seq<char> {
        path_of_components(settled(components_of(self.candidate(base, raw))))
    }

    /// The path at which to look for a target.
    pub fn candidate_path(&self, base_rel_dir: &str, untrusted_target: &str) -> (r: Result<
        String,
        SecurityError,
    >)
        ensures
            match r {
                Ok(p) => is_clean(untrusted_target@) && p@ == self.candidate(
                    base_rel_dir@,
                    untrusted_target@,
                ),
                Err(SecurityError::InvalidCharacters) => untrusted_target@.contains('\0'),
                Err(SecurityError::AbsolutePathEscape(s)) => !untrusted_target@.contains('\0')
                    && is_rooted(slashed(untrusted_target@)) && s@ == untrusted_target@,
                Err(SecurityError::ParentTraversalAttempt) => !untrusted_target@.contains('\0')
                    && !is_rooted(slashed(untrusted_target@)) && walked(
                    names_of(slashed(untrusted_target@)),
                ) is None,
                Err(_) => false,
            },
    {
        match self.lexical_sanitize_relative(untrusted_target) {
            Err(e) => Err(e),
            Ok(rel) => {
                let base = join_paths(self.canonical_root.as_str(), base_rel_dir);
                Ok(join_paths(base.as_str(), rel.as_str()))
            },
        }
    }

    /// The path of a target, checked to lie in the vault. `found` is what the
    /// disk says of the candidate path: an existing target counts by its
    /// canonical path, so that a symbolic link cannot lead out.
    pub fn resolve_within_vault(
        &self,
        base_rel_dir: &str,
        untrusted_target: &str,
        found: &OnDisk,
    ) -> (r: Result<String, SecurityError>)
        ensures
            match r {
                Ok(p) => {
                    &&& is_clean(untrusted_target@)
                    &&& is_within(p@, self.root())
                    &&& match found {
                        OnDisk::At(place) => p@ == place@,
                        OnDisk::Absent => p@ == self.settled_candidate(
                            base_rel_dir@,
                            untrusted_target@,
                        ),
                        OnDisk::Failed(_) => false,
                    }
                },
                Err(SecurityError::SymlinkEscapesRoot { target }) => is_clean(untrusted_target@)
                    && match found {
                    OnDisk::At(place) => !is_within(place@, self.root()) && target@ == place@,
                    _ => false,
                },
                Err(SecurityError::IoError(e)) => is_clean(untrusted_target@) && match found {
                    OnDisk::Failed(s) => e@ == s@,
                    _ => false,
                },
                Err(SecurityError::ParentTraversalAttempt) => !untrusted_target@.contains('\0')
                    && !is_rooted(slashed(untrusted_target@)) && (walked(
                    names_of(slashed(untrusted_target@)),
                ) is None || (found is Absent && !is_within(
                    self.settled_candidate(base_rel_dir@, untrusted_target@),
                    self.root(),
                ))),
                Err(SecurityError::InvalidCharacters) => untrusted_target@.contains('\0'),
                Err(SecurityError::AbsolutePathEscape(s)) => !untrusted_target@.contains('\0')
                    && is_rooted(slashed(untrusted_target@)) && s@ == untrusted_target@,
                Err(_) => false,
            },
    {
        broadcast use group_views;

        let rel = match self.lexical_sanitize_relative(untrusted_target) {
            Ok(p) => p,
            Err(e) => {
                return Err(e);
            },
        };
        match found {
            OnDisk::Failed(e) => Err(SecurityError::IoError(e.clone())),
            OnDisk::At(place) => {
                if path_is_within(place.as_str(), self.canonical_root.as_str()) {
                    Ok(place.clone())
                } else {
                    Err(SecurityError::SymlinkEscapesRoot { target: place.clone() })
                }
            },
            OnDisk::Absent => {
                let base = join_paths(self.canonical_root.as_str(), base_rel_dir);
                let combined = join_paths(base.as_str(), rel.as_str());
                let parts = path_components(combined.as_str());
                let stack = settle(&parts);
                let result = join_components(&stack);
                if path_is_within(result.as_str(), self.canonical_root.as_str()) {
                    Ok(result)
                } else {
                    Err(SecurityError::ParentTraversalAttempt)
                }
            },
        }
    }
}

fn settle(parts: &Vec<String>) -> (r: Vec<String>)
    ensures
        views(r@) == settled(views(parts@)),
{
    broadcast use group_views;

    let ghost all = views(parts@);
    let mut stack: Vec<String> = Vec::new();
    let mut i: usize = 0;
    while i < parts.len()
        invariant
            i <= parts@.len(),
            all == views(parts@),
            views(stack@) == settled(all.take(i as int)),
        decreases parts.len() - i,
    {
        assert(all.take(i as int + 1).drop_last() =~= all.take(i as int));
        if same(parts[i].as_str(), "..") {
            let ghost at = views(stack@);
            if stack.len() > 0 {
                stack.pop();
                assert(views(stack@) =~= at.drop_last());
            }
        } else if !same(parts[i].as_str(), ".") {
            stack.push(parts[i].clone());
        }
        i += 1;
    }
    assert(all.take(i as int) =~= all);
    stack
}

fn join_components(parts: &Vec<String>) -> (r: String)
    ensures
        r@ == path_of_components(views(parts@)),
{
    broadcast use group_views;

    let ghost all = views(parts@);
    if parts.len() > 0 {
        assert(all[0] == parts@[0]@);
        if same(parts[0].as_str(), "/") {
            let mut rest: Vec<String> = Vec::new();
            let mut i: usize = 1;
            assert(all.subrange(1, 1) =~= Seq::empty());
            while i < parts.len()
                invariant
                    1 <= i <= parts@.len(),
                    all == views(parts@),
                    views(rest@) == all.subrange(1, i as int),
                decreases parts.len() - i,
            {
                rest.push(parts[i].clone());
                i += 1;
                assert(all.subrange(1, i as int) =~= all.subrange(1, i as int - 1).push(
                    all[i as int - 1],
                ));
            }
            assert(all.subrange(1, i as int) =~= all.skip(1));
            let mut s = "/".to_owned();
            let tail = str_join(&rest, "/");
            s.append(tail.as_str());
            return s;
        }
    }
    str_join(parts, "/")
}

proof fn lemma_walked_fails(names: Seq<Seq<char>>, n: int)
    requires
        0 <= n <= names.len(),
        walked(names.take(n)) is None,
    ensures
        walked(names) is None,
    decreases names.len() - n,
{
    if n == names.len() {
        assert(names.take(n) =~= names);
    } else {
        assert(names.take(n + 1).drop_last() =~= names.take(n));
        lemma_walked_fails(names, n + 1);
    }
}

proof fn lemma_walked_names(names: Seq<Seq<char>>)
    requires
        all_names(names),
    ensures
        walked(names) matches Some(at) ==> all_names(at) && forall|i: int|
            0 <= i < at.len() ==> #[trigger] at[i] != ".."@,
    decreases names.len(),
{
    if names.len() > 0 {
        let rest = names.drop_last();
        assert(all_names(rest)) by {
            assert forall|i: int| 0 <= i < rest.len() implies is_name(#[trigger] rest[i]) by {
                assert(rest[i] == names[i]);
            }
        }
        lemma_walked_names(rest);
        assert(is_name(names[names.len() - 1]));
        if walked(rest) is Some {
            let at = walked(rest).unwrap();
            if at.len() > 0 {
                let cut = at.drop_last();
                assert forall|i: int| 0 <= i < cut.len() implies is_name(#[trigger] cut[i])
                    && cut[i] != ".."@ by {
                    assert(cut[i] == at[i]);
                }
            }
        }
    }
}

/// A path that passes the lexical check is relative and has no `..` component
/// left, so that it stays below whatever it is joined to.
pub proof fn sanitized_path_stays_below(raw: Seq<char>)
    requires
        is_clean(raw),
    ensures
        ({
            let p = join(walked(names_of(slashed(raw))).unwrap(), "/"@);
            &&& !is_absolute(p)
            &&& names_of(p) == walked(names_of(slashed(raw))).unwrap()
            &&& forall|i: int| 0 <= i < names_of(p).len() ==> #[trigger] names_of(p)[i] != ".."@
        }),
{
    lemma_names_are_names(slashed(raw));
    lemma_walked_names(names_of(slashed(raw)));
    lemma_joined_names(walked(names_of(slashed(raw))).unwrap());
}

// ---------------------------------------------------------------------------
// Text that is safe to show
// ---------------------------------------------------------------------------

/// A character as it stands in HTML.
pub open spec fn html_char(c: char) -> Seq<char> {
    if c == '&' {
        "&amp;"@
    } else if c == '<' {
        "&lt;"@
    } else if c == '>' {
        "&gt;"@
    } else if c == '"' {
        "&quot;"@
    } else if c == '\'' {
        "&#x27;"@
    } else if c == '/' {
        "&#x2F;"@
    } else {
        seq![c]
    }
}

/// A text as it stands in HTML.
pub open spec fn html_text(s: Seq<char>) -> Seq<char>
    decreases s.len(),
{
    if s.len() == 0 {
        Seq::empty()
    } else {
        html_text(s.drop_last()) + html_char(s.last())
    }
}

/// A control character of ASCII.
pub open spec fn is_control(c: char) -> bool {
    c <= '\u{1f}' || c == '\u{7f}'
}

/// The text without white space and control characters, ASCII letters in lower
/// case.
pub open spec fn url_key(s: Seq<char>) -> Seq<char>
    decreases s.len(),
{
    if s.len() == 0 {
        Seq::empty()
    } else {
        let before = url_key(s.drop_last());
        if is_white(s.last()) || is_control(s.last()) {
            before
        } else {
            before.push(ascii_lower(s.last()))
        }
    }
}

/// Whether a URL may be followed: none that runs or embeds something, and of
/// those that name a scheme only the web and mail.
pub open spec fn url_is_safe(url: Seq<char>) -> bool {
    let k = url_key(url);
    &&& !"javascript:"@.is_prefix_of(k)
    &&& !"vbscript:"@.is_prefix_of(k)
    &&& !"file:"@.is_prefix_of(k)
    &&& !"data:"@.is_prefix_of(k)
    &&& ("http://"@.is_prefix_of(k) || "https://"@.is_prefix_of(k) || "mailto://"@.is_prefix_of(k)
        || "#"@.is_prefix_of(k) || !k.contains(':'))
}

/// A character of JSON text as it may stand in a script.
pub open spec fn script_char(c: char) -> Seq<char> {
    if c == '<' {
        "\\u003c"@
    } else if c == '>' {
        "\\u003e"@
    } else if c == '&' {
        "\\u0026"@
    } else {
        seq![c]
    }
}

/// JSON text as it may stand in a script.
pub open spec fn script_text(s: Seq<char>) -> Seq<char>
    decreases s.len(),
{
    if s.len() == 0 {
        Seq::empty()
    } else {
        script_text(s.drop_last()) + script_char(s.last())
    }
}

/// Makes text safe to show.
pub struct MarkdownSanitizer;

impl MarkdownSanitizer {
    /// A text as it stands in HTML.
    pub fn escape_html(input: &str) -> (r: String)
        ensures
            r@ == html_text(input@),
    {
        let v = chars_of(input);
        let mut out = String::new();
        let mut i: usize = 0;
        while i < v.len()
            invariant
                i <= v@.len(),
                out@ == html_text(v@.take(i as int)),
            decreases v.len() - i,
        {
            assert(v@.take(i as int + 1).drop_last() =~= v@.take(i as int));
            let c = v[i];
            let ghost before = out@;
            if c == '&' {
                out.append("&amp;");
            } else if c == '<' {
                out.append("&lt;");
            } else if c == '>' {
                out.append("&gt;");
            } else if c == '"' {
                out.append("&quot;");
            } else if c == '\'' {
                out.append("&#x27;");
            } else if c == '/' {
                out.append("&#x2F;");
            } else {
                out.push(c);
                assert(out@ =~= before + seq![c]);
            }
            i += 1;
        }
        assert(v@.take(i as int) =~= v@);
        out
    }

    /// Whether a URL may be followed.
    pub fn is_safe_url(url: &str) -> (r: bool)
        ensures
            r == url_is_safe(url@),
    {
        let v = chars_of(url);
        let mut key = String::new();
        let mut i: usize = 0;
        while i < v.len()
            invariant
                i <= v@.len(),
                key@ == url_key(v@.take(i as int)),
            decreases v.len() - i,
        {
            assert(v@.take(i as int + 1).drop_last() =~= v@.take(i as int));
            let c = v[i];
            let control = c <= '\u{1f}' || c == '\u{7f}';
            if !char_is_whitespace(c) && !control {
                key.push(char_ascii_lower(c));
            }
            i += 1;
        }
        assert(v@.take(i as int) =~= v@);
        let k = key.as_str();
        if str_starts_with(k, "javascript:") || str_starts_with(k, "vbscript:") || str_starts_with(
            k,
            "file:",
        ) || str_starts_with(k, "data:") {
            return false;
        }
        str_starts_with(k, "http://") || str_starts_with(k, "https://") || str_starts_with(
            k,
            "mailto://",
        ) || str_starts_with(k, "#") || !str_contains_char(k, ':')
    }

    /// JSON text as it may stand in a script.
    pub fn safe_json_for_script(json: &str) -> (r: String)
        ensures
            r@ == script_text(json@),
    {
        let v = chars_of(json);
        let mut out = String::new();
        let mut i: usize = 0;
        while i < v.len()
            invariant
                i <= v@.len(),
                out@ == script_text(v@.take(i as int)),
            decreases v.len() - i,
        {
            assert(v@.take(i as int + 1).drop_last() =~= v@.take(i as int));
            let c = v[i];
            let ghost before = out@;
            if c == '<' {
                out.append("\\u003c");
            } else if c == '>' {
                out.append("\\u003e");
            } else if c == '&' {
                out.append("\\u0026");
            } else {
                out.push(c);
                assert(out@ =~= before + seq![c]);
            }
            i += 1;
        }
        assert(v@.take(i as int) =~= v@);
        out
    }
}

/// Escaped text holds no character that opens or closes a tag or an attribute.
pub proof fn escaped_text_is_inert(s: Seq<char>)
    ensures
        forall|i: int|
            0 <= i < html_text(s).len() ==> {
                let c = #[trigger] html_text(s)[i];
                c != '<' && c != '>' && c != '"' && c != '\'' && c != '/'
            },
    decreases s.len(),
{
    if s.len() > 0 {
        escaped_text_is_inert(s.drop_last());
        reveal_strlit("&amp;");
        reveal_strlit("&lt;");
        reveal_strlit("&gt;");
        reveal_strlit("&quot;");
        reveal_strlit("&#x27;");
        reveal_strlit("&#x2F;");
        let a = html_text(s.drop_last());
        let b = html_char(s.last());
        assert forall|i: int| 0 <= i < html_text(s).len() implies ({
            let c = #[trigger] html_text(s)[i];
            c != '<' && c != '>' && c != '"' && c != '\'' && c != '/'
        }) by {
            if i < a.len() {
                assert(html_text(s)[i] == a[i]);
            } else {
                assert(html_text(s)[i] == b[i - a.len()]);
            }
        }
    }
}

/// JSON text for a script holds no character that could end the script.
pub proof fn script_text_is_inert(s: Seq<char>)
    ensures
        forall|i: int|
            0 <= i < script_text(s).len() ==> {
                let c = #[trigger] script_text(s)[i];
                c != '<' && c != '>' && c != '&'
            },
    decreases s.len(),
{
    if s.len() > 0 {
        script_text_is_inert(s.drop_last());
        reveal_strlit("\\u003c");
        reveal_strlit("\\u003e");
        reveal_strlit("\\u0026");
        let a = script_text(s.drop_last());
        let b = script_char(s.last());
        assert forall|i: int| 0 <= i < script_text(s).len() implies ({
            let c = #[trigger] script_text(s)[i];
            c != '<' && c != '>' && c != '&'
        }) by {
            if i < a.len() {
                assert(script_text(s)[i] == a[i]);
            } else {
                assert(script_text(s)[i] == b[i - a.len()]);
            }
        }
    }
}

// ---------------------------------------------------------------------------
// Limits
// ---------------------------------------------------------------------------

/// The largest note that is read, in bytes.
pub const MAX_NOTE_SIZE: u64 = 10_485_760;

/// Limits on file size and on embeds within embeds.
#[derive(Debug, Clone, Copy)]
pub struct DosGuards {
    pub max_note_size: u64,
    pub max_embed_depth: usize,
}

impl Default for DosGuards {
    fn default() -> (r: Self)
        ensures
            r.max_note_size == MAX_NOTE_SIZE,
            r.max_embed_depth == 5,
    {
        DosGuards { max_note_size: MAX_NOTE_SIZE, max_embed_depth: 5 }
    }
}

/// The notes whose embeds are being expanded.
pub struct OpenEmbeds {
    names: StringHashSet,
}

impl OpenEmbeds {
    /// The names of the notes.
    pub closed spec fn set(&self) -> Set<Seq<char>> {
        self.names@
    }

    /// No note.
    pub fn new() -> (r: Self)
        ensures
            r.set() == Set::<Seq<char>>::empty(),
    {
        OpenEmbeds { names: StringHashSet::new() }
    }

    /// Adds a note.
    pub fn add(&mut self, name: &str)
        ensures
            final(self).set() == old(self).set().insert(name@),
    {
        self.names.insert(name.to_owned());
    }

    /// Whether a note is among them.
    pub fn holds(&self, name: &str) -> (r: bool)
        ensures
            r == self.set().contains(name@),
    {
        self.names.contains(name)
    }
}

impl DosGuards {
    /// Whether a file of this size may be read.
    pub fn check_file_size(&self, size: u64) -> (r: Result<(), SecurityError>)
        ensures
            match r {
                Ok(_) => size <= self.max_note_size,
                Err(SecurityError::FileTooLarge { size: s, max_size }) => size > self.max_note_size
                    && s == size && max_size == self.max_note_size,
                Err(_) => false,
            },
    {
        if size > self.max_note_size {
            return Err(SecurityError::FileTooLarge { size, max_size: self.max_note_size });
        }
        Ok(())
    }

    /// The text of an embedded note, from whatever loads notes; a remark in its
    /// place where embeds are too deep or lead back to a note that is being
    /// expanded. What is being expanded is the same afterwards.
    pub fn expand_embeds_safe<F: Fn(&str) -> Option<String>>(
        &self,
        target_note: &str,
        visited: &mut OpenEmbeds,
        current_depth: usize,
        content_loader: &F,
    ) -> (r: Result<String, SecurityError>)
        requires
            content_loader.requires((target_note,)),
        ensures
            final(visited).set() == old(visited).set(),
            r is Ok,
            if current_depth > self.max_embed_depth {
                r.unwrap()@ == "<!-- [Embed depth limit reached for '"@ + target_note@ + "'] -->"@
            } else if old(visited).set().contains(target_note@) {
                r.unwrap()@ == "<!-- [Cyclic embed detected for '"@ + target_note@ + "'] -->"@
            } else {
                exists|loaded: Option<String>| #[trigger]
                    content_loader.ensures((target_note,), loaded) && r.unwrap()@ == match opt_view(
                        loaded,
                    ) {
                        Some(text) => text,
                        None => Seq::empty(),
                    }
            },
    {
        if current_depth > self.max_embed_depth {
            return Ok(
                around("<!-- [Embed depth limit reached for '", target_note, "'] -->"),
            );
        }
        let ghost before = visited.set();
        if !visited.names.insert(target_note.to_owned()) {
            assert(visited.set() =~= before);
            return Ok(around("<!-- [Cyclic embed detected for '", target_note, "'] -->"));
        }
        let loaded = content_loader(target_note);
        let text = match loaded {
            Some(s) => s,
            None => String::new(),
        };
        visited.names.remove(target_note);
        assert(visited.set() =~= before);
        Ok(text)
    }
}

// ---------------------------------------------------------------------------
// What holds of what is made safe
// ---------------------------------------------------------------------------

/// A text is escaped character by character: the six characters that mean something in
/// HTML are replaced by their entities, every other one is kept.
pub proof fn html_is_escaped_by_character(a: Seq<char>, b: Seq<char>, c: char)
    ensures
        html_text(a + b) == html_text(a) + html_text(b),
        html_text(seq!['&']) == "&amp;"@,
        html_text(seq!['<']) == "&lt;"@,
        html_text(seq!['>']) == "&gt;"@,
        html_text(seq!['"']) == "&quot;"@,
        html_text(seq!['\'']) == "&#x27;"@,
        html_text(seq!['/']) == "&#x2F;"@,
        c != '&' && c != '<' && c != '>' && c != '"' && c != '\'' && c != '/' ==> html_text(seq![c])
            == seq![c],
    decreases b.len(),
{
    lemma_html_of_one('&');
    lemma_html_of_one('<');
    lemma_html_of_one('>');
    lemma_html_of_one('"');
    lemma_html_of_one('\'');
    lemma_html_of_one('/');
    lemma_html_of_one(c);
    if b.len() == 0 {
        assert(a + b =~= a);
        assert(html_text(a) + html_text(b) =~= html_text(a));
    } else {
        html_is_escaped_by_character(a, b.drop_last(), c);
        assert((a + b).drop_last() =~= a + b.drop_last());
        assert(html_text(a + b) =~= html_text(a) + html_text(b));
    }
}

proof fn lemma_html_of_one(c: char)
    ensures
        html_text(seq![c]) == html_char(c),
{
    assert(html_text(seq![c].drop_last()).len() == 0);
    assert(html_text(seq![c]) =~= html_char(c));
}

/// JSON text is made fit for a script character by character: angle brackets and
/// ampersands are written as escapes, every other character is kept.
pub proof fn script_is_escaped_by_character(a: Seq<char>, b: Seq<char>, c: char)
    ensures
        script_text(a + b) == script_text(a) + script_text(b),
        script_text(seq!['<']) == "\\u003c"@,
        script_text(seq!['>']) == "\\u003e"@,
        script_text(seq!['&']) == "\\u0026"@,
        c != '<' && c != '>' && c != '&' ==> script_text(seq![c]) == seq![c],
    decreases b.len(),
{
    lemma_script_of_one('<');
    lemma_script_of_one('>');
    lemma_script_of_one('&');
    lemma_script_of_one(c);
    if b.len() == 0 {
        assert(a + b =~= a);
        assert(script_text(a) + script_text(b) =~= script_text(a));
    } else {
        script_is_escaped_by_character(a, b.drop_last(), c);
        assert((a + b).drop_last() =~= a + b.drop_last());
        assert(script_text(a + b) =~= script_text(a) + script_text(b));
    }
}

proof fn lemma_script_of_one(c: char)
    ensures
        script_text(seq![c]) == script_char(c),
{
    assert(script_text(seq![c].drop_last()).len() == 0);
    assert(script_text(seq![c]) =~= script_char(c));
}

proof fn lemma_url_key_parts(a: Seq<char>, b: Seq<char>)
    ensures
        url_key(a + b) == url_key(a) + url_key(b),
    decreases b.len(),
{
    if b.len() == 0 {
        assert(a + b =~= a);
        assert(url_key(a) + url_key(b) =~= url_key(a));
    } else {
        lemma_url_key_parts(a, b.drop_last());
        assert((a + b).drop_last() =~= a + b.drop_last());
        assert(url_key(a + b) =~= url_key(a) + url_key(b));
    }
}

/// White space and control characters anywhere in a URL do not change whether it may be
/// followed, nor does the case of its ASCII letters.
pub proof fn disguise_does_not_help_a_url(a: Seq<char>, c: char, b: Seq<char>)
    ensures
        is_white(c) || c <= '\u{1f}' || c == '\u{7f}' ==> url_is_safe(a + seq![c] + b)
            == url_is_safe(a + b),
        'A' <= c <= 'Z' ==> url_is_safe(a + seq![c] + b) == url_is_safe(
            a + seq![ascii_lower(c)] + b,
        ),
{
    let low = ascii_lower(c);
    lemma_url_key_parts(a + seq![c], b);
    lemma_url_key_parts(a, seq![c]);
    lemma_url_key_parts(a + seq![low], b);
    lemma_url_key_parts(a, seq![low]);
    lemma_url_key_parts(a, b);
    assert(url_key(seq![c].drop_last()).len() == 0);
    assert(url_key(seq![low].drop_last()).len() == 0);
    if is_white(c) || is_control(c) {
        assert(url_key(seq![c]) =~= Seq::<char>::empty());
        assert(url_key(a + seq![c] + b) =~= url_key(a + b));
    }
    if 'A' <= c <= 'Z' {
        assert(is_white(c) == is_white(low));
        assert(url_key(seq![c]) =~= url_key(seq![low]));
    }
}

/// Of URLs in lower case without white space and control characters, those may be
/// followed that name the web or mail, are anchors or name no scheme.
pub proof fn plain_urls_are_judged_by_their_scheme(url: Seq<char>)
    requires
        forall|i: int|
            0 <= i < url.len() ==> !is_white(#[trigger] url[i]) && !is_control(url[i]) && !('A'
                <= url[i] <= 'Z'),
    ensures
        "javascript:"@.is_prefix_of(url) ==> !url_is_safe(url),
        "vbscript:"@.is_prefix_of(url) ==> !url_is_safe(url),
        "file:"@.is_prefix_of(url) ==> !url_is_safe(url),
        "data:"@.is_prefix_of(url) ==> !url_is_safe(url),
        "http://"@.is_prefix_of(url) ==> url_is_safe(url),
        "https://"@.is_prefix_of(url) ==> url_is_safe(url),
        "mailto://"@.is_prefix_of(url) ==> url_is_safe(url),
        url.len() > 0 && url[0] == '#' ==> url_is_safe(url),
        !url.contains(':') ==> url_is_safe(url),
        url.contains(':') && !"http://"@.is_prefix_of(url) && !"https://"@.is_prefix_of(url)
            && !"mailto://"@.is_prefix_of(url) && !"#"@.is_prefix_of(url) ==> !url_is_safe(url),
{
    lemma_plain_url_key(url);
    reveal_strlit("javascript:");
    reveal_strlit("vbscript:");
    reveal_strlit("file:");
    reveal_strlit("data:");
    reveal_strlit("http://");
    reveal_strlit("https://");
    reveal_strlit("mailto://");
    reveal_strlit("#");
    if url.len() > 0 {
        if "javascript:"@.is_prefix_of(url) {
            assert(url.take(11)[0] == 'j');
        }
        if "vbscript:"@.is_prefix_of(url) {
            assert(url.take(9)[0] == 'v');
        }
        if "file:"@.is_prefix_of(url) {
            assert(url.take(5)[0] == 'f');
        }
        if "data:"@.is_prefix_of(url) {
            assert(url.take(5)[0] == 'd');
        }
        if "http://"@.is_prefix_of(url) {
            assert(url.take(7)[0] == 'h');
        }
        if "https://"@.is_prefix_of(url) {
            assert(url.take(8)[0] == 'h');
        }
        if "mailto://"@.is_prefix_of(url) {
            assert(url.take(9)[0] == 'm');
        }
        if url[0] == '#' {
            assert("#"@ =~= url.take(1));
            assert("#"@.is_prefix_of(url));
        }
    }
    if !url.contains(':') {
        if "javascript:"@.is_prefix_of(url) {
            assert(url.take(11)[10] == ':');
            assert(url[10] == ':');
        }
        if "vbscript:"@.is_prefix_of(url) {
            assert(url.take(9)[8] == ':');
            assert(url[8] == ':');
        }
        if "file:"@.is_prefix_of(url) {
            assert(url.take(5)[4] == ':');
            assert(url[4] == ':');
        }
        if "data:"@.is_prefix_of(url) {
            assert(url.take(5)[4] == ':');
            assert(url[4] == ':');
        }
    }
}

proof fn lemma_plain_url_key(url: Seq<char>)
    requires
        forall|i: int|
            0 <= i < url.len() ==> !is_white(#[trigger] url[i]) && !is_control(url[i]) && !('A'
                <= url[i] <= 'Z'),
    ensures
        url_key(url) == url,
    decreases url.len(),
{
    if url.len() > 0 {
        let rest = url.drop_last();
        assert forall|i: int| 0 <= i < rest.len() implies !is_white(#[trigger] rest[i])
            && !is_control(rest[i]) && !('A' <= rest[i] <= 'Z') by {
            assert(rest[i] == url[i]);
        }
        lemma_plain_url_key(rest);
        assert(!is_white(url[url.len() - 1]));
        assert(rest.push(url.last()) =~= url);
    } else {
        assert(url =~= Seq::<char>::empty());
    }
}

/// A way without `..` leads where its names say. A name followed by `..` leads nowhere,
/// and a `..` with nothing above it leads out.
pub proof fn going_up_undoes_going_down(names: Seq<Seq<char>>, name: Seq<char>, more: Seq<Seq<char>>)
    requires
        name != ".."@,
    ensures
        (forall|i: int| 0 <= i < names.len() ==> #[trigger] names[i] != ".."@) ==> walked(names)
            == Some(names),
        walked(names + seq![name, ".."@] + more) == walked(names + more),
        walked(seq![".."@] + more) is None,
    decreases more.len(),
{
    if forall|i: int| 0 <= i < names.len() ==> #[trigger] names[i] != ".."@ {
        lemma_walked_down(names);
    }
    if more.len() == 0 {
        let down = names.push(name);
        let up = down.push(".."@);
        assert(names + seq![name, ".."@] + more =~= up);
        assert(names + more =~= names);
        assert(up.drop_last() =~= down);
        assert(down.drop_last() =~= names);
        match walked(names) {
            Some(at) => {
                assert(walked(down) == Some(at.push(name)));
                assert(at.push(name).drop_last() =~= at);
            },
            None => {
                assert(walked(down) is None);
            },
        }
        let out = seq![".."@] + more;
        assert(out.drop_last() =~= Seq::<Seq<char>>::empty());
        assert(walked(out.drop_last()) == Some(Seq::<Seq<char>>::empty()));
        assert(out.last() == ".."@);
    } else {
        going_up_undoes_going_down(names, name, more.drop_last());
        assert((names + seq![name, ".."@] + more).drop_last() =~= names + seq![name, ".."@]
            + more.drop_last());
        assert((names + more).drop_last() =~= names + more.drop_last());
        assert((seq![".."@] + more).drop_last() =~= seq![".."@] + more.drop_last());
        assert((names + seq![name, ".."@] + more).last() == more.last());
        assert((names + more).last() == more.last());
        assert((seq![".."@] + more).last() == more.last());
    }
}

proof fn lemma_walked_down(names: Seq<Seq<char>>)
    requires
        forall|i: int| 0 <= i < names.len() ==> #[trigger] names[i] != ".."@,
    ensures
        walked(names) == Some(names),
    decreases names.len(),
{
    if names.len() > 0 {
        let rest = names.drop_last();
        assert forall|i: int| 0 <= i < rest.len() implies #[trigger] rest[i] != ".."@ by {
            assert(rest[i] == names[i]);
        }
        lemma_walked_down(rest);
        assert(names[names.len() - 1] != ".."@);
        assert(rest.push(names.last()) =~= names);
    } else {
        assert(names =~= Seq::<Seq<char>>::empty());
    }
}

/// A path passes exactly if it holds no null character, begins neither at a root nor
/// with a drive letter, whichever way its slashes lean, and never goes out.
pub proof fn slashes_lean_either_way(raw: Seq<char>)
    ensures
        is_clean(raw) == is_clean(raw.map_values(|c: char| if c == '\\' { '/' } else { c })),
        raw.len() > 0 && (raw[0] == '/' || raw[0] == '\\') ==> !is_clean(raw),
        raw.len() >= 2 && raw[1] == ':' && ('a' <= raw[0] <= 'z' || 'A' <= raw[0] <= 'Z')
            ==> !is_clean(raw),
        raw.contains('\0') ==> !is_clean(raw),
{
    let s = raw.map_values(|c: char| if c == '\\' { '/' } else { c });
    assert(slashed(s) =~= slashed(raw));
    if raw.contains('\0') {
        let k = choose|k: int| 0 <= k < raw.len() && raw[k] == '\0';
        assert(s[k] == '\0');
    }
    if s.contains('\0') {
        let k = choose|k: int| 0 <= k < s.len() && s[k] == '\0';
        assert(raw[k] == '\0');
    }
    if raw.len() > 0 {
        assert(slashed(raw)[0] == if raw[0] == '\\' { '/' } else { raw[0] });
    }
    if raw.len() >= 2 {
        assert(slashed(raw)[1] == if raw[1] == '\\' { '/' } else { raw[1] });
    }
}

} // verus!
