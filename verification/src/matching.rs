//! Regular expressions, as the note grammar uses them.

use vstd::prelude::*;

verus! {

/// A compiled pattern of the `regex` crate.
#[verifier::external_type_specification]
#[verifier::external_body]
pub struct ExRegex(regex::Regex);

/// Why a pattern was not compiled.
#[verifier::external_type_specification]
#[verifier::external_body]
pub struct ExRegexError(regex::Error);

/// `!?[[target#heading^block|alias]]`. Groups: 1 the `!`, 2 the target, 3 a
/// block behind `#^`, 4 a heading, 5 a block behind the heading, 6 a block
/// straight behind the target, 7 the alias.
pub const WIKILINK: &'static str = r"(?P<embed>!)?\[\[(?P<target>[^\]|#^]+)(?:#(?:(?:\^(?P<block>[^\]|]+))|(?P<heading>[^\]|^|]+)(?:\^(?P<block2>[^\]|]+))?))?(?:\^(?P<block_direct>[^\]|]+))?(?:\|(?P<alias>[^\]]+))?\]\]";

/// `#tag` or `#nested/tag`, not behind a word character or another `#`.
/// Group 1 is the tag.
pub const TAG: &'static str = r"(?:^|[\s,;:({\[])#(?P<tag>[a-zA-Z][a-zA-Z0-9_\-\/]*)";

/// A heading line. Group 1 is the hashes, group 2 the title.
pub const HEADING: &'static str = r"^(?P<hashes>#{1,6})\s+(?P<title>.*)$";

/// `[text](url)`. Group 1 is the text, group 2 the URL.
pub const MARKDOWN_LINK: &'static str = r"\[(?P<text>[^\]]+)\]\((?P<url>[^)]+)\)";

/// `[key:: value]`. Group 1 is the key, group 2 the value.
pub const FIELD_IN_BRACKETS: &'static str = r"\[(?P<key>[a-zA-Z0-9_\-]+)::\s*(?P<val>[^\]]+)\]";

/// `key:: value` in running text. Group 1 is the key, group 2 the value.
pub const FIELD_INLINE: &'static str = r"(?:^|[\s,;])(?P<key>[a-zA-Z0-9_\-]+)::\s*(?P<val>[^,\n\]]+)";

/// The patterns of the note grammar.
pub open spec fn is_grammar_pattern(p: Seq<char>) -> bool {
    p == WIKILINK@ || p == TAG@ || p == HEADING@ || p == MARKDOWN_LINK@ || p == FIELD_IN_BRACKETS@
        || p == FIELD_INLINE@
}

/// The text from which a pattern was compiled.
pub uninterp spec fn pattern_of(re: regex::Regex) -> Seq<char>;

/// A match: where it begins and ends, in bytes, and the texts of its groups in
/// the order of their opening brackets, group 0 being the whole match; a group
/// that took no part has none.
#[derive(Debug)]
pub struct Match {
    pub start: usize,
    pub end: usize,
    pub groups: Vec<Option<String>>,
}

/// What a `Match` says.
pub struct MatchModel {
    pub start: usize,
    pub end: usize,
    pub groups: Seq<Option<Seq<char>>>,
}

impl View for Match {
    type V = MatchModel;

    open spec fn view(&self) -> MatchModel {
        MatchModel {
            start: self.start,
            end: self.end,
            groups: self.groups@.map_values(|g: Option<String>| crate::text::opt_view(g)),
        }
    }
}

/// The matches of a pattern in a text, one after the other without overlap.
pub uninterp spec fn pattern_matches(pattern: Seq<char>, text: Seq<char>) -> Seq<MatchModel>;

/// Group `n` of a match, where it took part.
pub open spec fn group(m: MatchModel, n: int) -> Option<Seq<char>> {
    if 0 <= n < m.groups.len() {
        m.groups[n]
    } else {
        None
    }
}

/// Calls `Regex::new`. A compiled pattern stands for the text it was made from,
/// and the patterns of the note grammar compile.
#[verifier::external_body]
pub(crate) fn compile(pattern: &str) -> (r: Result<regex::Regex, regex::Error>)
    ensures
        r matches Ok(re) ==> pattern_of(re) == pattern@,
        is_grammar_pattern(pattern@) ==> r is Ok,
{
    regex::Regex::new(pattern)
}

/// Calls `Regex::captures_iter` and copies each match out.
#[verifier::external_body]
pub(crate) fn matches_in(re: &regex::Regex, text: &str) -> (r: Vec<Match>)
    ensures
        crate::text::views(r@) == pattern_matches(pattern_of(*re), text@),
{
    re.captures_iter(text)
        .map(|c| Match {
            start: c.get_match().start(),
            end: c.get_match().end(),
            groups: c.iter().map(|g| g.map(|m| m.as_str().to_string())).collect(),
        })
        .collect()
}

} // verus!
