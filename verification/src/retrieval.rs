//! Hybrid retrieval: what a query is like, how lexical and semantic hits are
//! brought together, and what lifts a hit.

use crate::diagnostics::once_keeps_everything;
use crate::sorting::{
    first_sorted_are_the_least, is_weak_order, sort_by, sorted_by, sorted_differ,
    sorted_keeps_items, sorting_keeps_order_of_equals,
};
use crate::text::{
    char_is_alphanumeric, chars_of, contains_str, group_views, is_alnum, join, lowercase, same,
    str_contains, str_contains_char, str_ends_with, str_join, str_starts_with, str_trim,
    str_trim_start_char, str_words, string_range, to_lowercase, trim, trim_start_char, views,
    words_of,
};
use crate::wide::{is_less, product, widened};
use vstd::prelude::*;

verus! {

// ---------------------------------------------------------------------------
// What a query is like
// ---------------------------------------------------------------------------

/// What a query is after.
#[derive(Debug, Clone, Copy, PartialEq, Eq, Structural)]
pub enum QueryIntent {
    CodeSymbol,
    NaturalLanguage,
    BalancedHybrid,
}

/// How much the lexical and the semantic search count, in millionths.
#[derive(Debug, Clone, Copy, PartialEq, Eq, Structural)]
pub struct HybridWeights {
    pub bm25_weight: u32,
    pub vector_weight: u32,
    pub intent: QueryIntent,
}

/// Whether a query looks like code.
pub open spec fn looks_like_code(q: Seq<char>) -> bool {
    contains_str(q, "::"@) || contains_str(q, "->"@) || contains_str(q, "()"@)
        || "#"@.is_prefix_of(q) || ("\""@.is_prefix_of(q) && "\""@.is_suffix_of(q))
        || ".rs"@.is_suffix_of(q) || ".md"@.is_suffix_of(q) || ".ts"@.is_suffix_of(q)
        || ".py"@.is_suffix_of(q) || q.contains('_') || "fn "@.is_prefix_of(q)
        || "struct "@.is_prefix_of(q) || "class "@.is_prefix_of(q) || "impl "@.is_prefix_of(q)
        || "enum "@.is_prefix_of(q) || "trait "@.is_prefix_of(q) || "interface "@.is_prefix_of(q)
        || "type "@.is_prefix_of(q) || "def "@.is_prefix_of(q) || "let "@.is_prefix_of(q)
}

/// A word that questions hold.
pub open spec fn is_question_word(w: Seq<char>) -> bool {
    w == "how"@ || w == "why"@ || w == "what"@ || w == "where"@ || w == "when"@ || w == "explain"@
        || w == "describe"@ || w == "difference"@
}

/// Whether a query in lower case looks like natural language.
pub open spec fn looks_like_language(lower: Seq<char>) -> bool {
    "?"@.is_suffix_of(lower) || (exists|k: int|
        0 <= k < words_of(lower).len() && is_question_word(#[trigger] words_of(lower)[k]))
        || words_of(lower).len() >= 5
}

/// The weights for a query.
pub open spec fn weights_for(query: Seq<char>) -> HybridWeights {
    let q = trim(query);
    if looks_like_code(q) {
        HybridWeights { bm25_weight: 850_000, vector_weight: 150_000, intent: QueryIntent::CodeSymbol }
    } else if looks_like_language(lowercase(q)) {
        HybridWeights { bm25_weight: 200_000, vector_weight: 800_000, intent: QueryIntent::NaturalLanguage }
    } else {
        HybridWeights { bm25_weight: 500_000, vector_weight: 500_000, intent: QueryIntent::BalancedHybrid }
    }
}

/// Tells what a query is after.
pub struct QueryClassifier;

fn is_code(q: &str) -> (r: bool)
    ensures
        r == looks_like_code(q@),
{
    str_contains(q, "::") || str_contains(q, "->") || str_contains(q, "()") || str_starts_with(
        q,
        "#",
    ) || (str_starts_with(q, "\"") && str_ends_with(q, "\"")) || str_ends_with(q, ".rs")
        || str_ends_with(q, ".md") || str_ends_with(q, ".ts") || str_ends_with(q, ".py")
        || str_contains_char(q, '_') || str_starts_with(q, "fn ") || str_starts_with(q, "struct ")
        || str_starts_with(q, "class ") || str_starts_with(q, "impl ") || str_starts_with(
        q,
        "enum ",
    ) || str_starts_with(q, "trait ") || str_starts_with(q, "interface ") || str_starts_with(
        q,
        "type ",
    ) || str_starts_with(q, "def ") || str_starts_with(q, "let ")
}

fn question_word(w: &str) -> (r: bool)
    ensures
        r == is_question_word(w@),
{
    same(w, "how") || same(w, "why") || same(w, "what") || same(w, "where") || same(w, "when")
        || same(w, "explain") || same(w, "describe") || same(w, "difference")
}

fn is_language(lower: &str) -> (r: bool)
    ensures
        r == looks_like_language(lower@),
{
    if str_ends_with(lower, "?") {
        return true;
    }
    let words = str_words(lower);
    let ghost ws = words_of(lower@);
    if words.len() >= 5 {
        assert(views(words@).len() >= 5);
        return true;
    }
    let mut k: usize = 0;
    while k < words.len()
        invariant
            k <= words@.len(),
            ws == views(words@),
            ws == words_of(lower@),
            forall|j: int| 0 <= j < k ==> !is_question_word(#[trigger] ws[j]),
        decreases words.len() - k,
    {
        assert(ws[k as int] == words@[k as int]@);
        if question_word(words[k].as_str()) {
            assert(is_question_word(words_of(lower@)[k as int]));
            return true;
        }
        k += 1;
    }
    false
}

impl QueryClassifier {
    /// The weights for a query.
    pub fn classify(query: &str) -> (r: HybridWeights)
        ensures
            r == weights_for(query@),
    {
        let q = str_trim(query);
        if is_code(q.as_str()) {
            return HybridWeights {
                bm25_weight: 850_000,
                vector_weight: 150_000,
                intent: QueryIntent::CodeSymbol,
            };
        }
        let lower = to_lowercase(q.as_str());
        if is_language(lower.as_str()) {
            return HybridWeights {
                bm25_weight: 200_000,
                vector_weight: 800_000,
                intent: QueryIntent::NaturalLanguage,
            };
        }
        HybridWeights { bm25_weight: 500_000, vector_weight: 500_000, intent: QueryIntent::BalancedHybrid }
    }
}

/// The weights always add up to one hundred percent.
pub proof fn weights_add_up(query: Seq<char>)
    ensures
        weights_for(query).bm25_weight + weights_for(query).vector_weight == 1_000_000,
{
}

// ---------------------------------------------------------------------------
// Queries for the full-text index
// ---------------------------------------------------------------------------

/// A character that a search term may begin and end with.
pub open spec fn is_term_char(c: char) -> bool {
    is_alnum(c) || c == '_' || c == '-'
}

/// A word without what cannot begin a term.
pub open spec fn term_from(w: Seq<char>) -> Seq<char>
    decreases w.len(),
{
    if w.len() > 0 && !is_term_char(w[0]) {
        term_from(w.drop_first())
    } else {
        w
    }
}

/// A word without what cannot end a term.
pub open spec fn term_upto(w: Seq<char>) -> Seq<char>
    decreases w.len(),
{
    if w.len() > 0 && !is_term_char(w.last()) {
        term_upto(w.drop_last())
    } else {
        w
    }
}

/// The terms of these words, each quoted and open at its end.
pub open spec fn quoted_terms(words: Seq<Seq<char>>) -> Seq<Seq<char>>
    decreases words.len(),
{
    if words.len() == 0 {
        Seq::empty()
    } else {
        let before = quoted_terms(words.drop_last());
        let term = term_upto(term_from(words.last()));
        if term.len() == 0 {
            before
        } else {
            before.push("\""@ + term + "\"*"@)
        }
    }
}

/// The full-text query for what a user typed: any of its terms.
pub open spec fn fts_query(raw: Seq<char>) -> Seq<char> {
    join(quoted_terms(words_of(raw)), " OR "@)
}

fn term_of(w: &str) -> (r: String)
    ensures
        r@ == term_upto(term_from(w@)),
{
    let v = chars_of(w);
    let n: usize = v.len();
    let mut i: usize = 0;
    assert(w@.skip(0) =~= w@);
    while i < n
        invariant
            i <= n,
            n == v@.len(),
            v@ == w@,
            term_from(w@.skip(i as int)) == term_from(w@),
        ensures
            i <= n,
            w@.skip(i as int) == term_from(w@),
        decreases n - i,
    {
        let c = v[i];
        if char_is_alphanumeric(c) || c == '_' || c == '-' {
            break;
        }
        assert(w@.skip(i as int).drop_first() =~= w@.skip(i as int + 1));
        i += 1;
    }
    let ghost t = w@.skip(i as int);
    let mut j: usize = n;
    assert(w@.subrange(i as int, j as int) =~= t);
    while j > i
        invariant
            i <= j <= n,
            n == v@.len(),
            v@ == w@,
            t == w@.skip(i as int),
            term_upto(w@.subrange(i as int, j as int)) == term_upto(t),
        ensures
            i <= j <= n,
            w@.subrange(i as int, j as int) == term_upto(t),
        decreases j,
    {
        let c = v[j - 1];
        if char_is_alphanumeric(c) || c == '_' || c == '-' {
            break;
        }
        assert(w@.subrange(i as int, j as int).drop_last() =~= w@.subrange(i as int, j as int - 1));
        j -= 1;
    }
    string_range(&v, i, j)
}

/// The full-text query for what a user typed.
pub fn sanitize_fts5_query(raw: &str) -> (r: String)
    ensures
        r@ == fts_query(raw@),
{
    broadcast use group_views;

    let words = str_words(raw);
    let ghost all = views(words@);
    let mut terms: Vec<String> = Vec::new();
    let mut i: usize = 0;
    while i < words.len()
        invariant
            i <= words@.len(),
            all == views(words@),
            views(terms@) == quoted_terms(all.take(i as int)),
        decreases words.len() - i,
    {
        assert(all.take(i as int + 1).drop_last() =~= all.take(i as int));
        let term = term_of(words[i].as_str());
        if !term.as_str().is_empty() {
            let mut q = "\"".to_owned();
            q.append(term.as_str());
            q.append("\"*");
            terms.push(q);
        }
        i += 1;
    }
    assert(all.take(i as int) =~= all);
    str_join(&terms, " OR ")
}

/// Whether a word holds a letter, a number, a hyphen or an underscore.
pub open spec fn holds_term(w: Seq<char>) -> bool {
    exists|i: int| 0 <= i < w.len() && (is_alnum(#[trigger] w[i]) || w[i] == '-' || w[i] == '_')
}

/// Whether `a` and `b` bound a word without the characters around it: from its first
/// letter, number, hyphen or underscore to its last.
pub open spec fn bounds_term(w: Seq<char>, a: int, b: int) -> bool {
    &&& 0 <= a < b <= w.len()
    &&& is_alnum(w[a]) || w[a] == '-' || w[a] == '_'
    &&& is_alnum(w[b - 1]) || w[b - 1] == '-' || w[b - 1] == '_'
    &&& forall|i: int|
        0 <= i < a || b <= i < w.len() ==> !(is_alnum(#[trigger] w[i]) || w[i] == '-' || w[i]
            == '_')
}

/// Whether an alternative asks for a word: the word without the characters around it,
/// in quotes and followed by a star.
pub open spec fn asks_for(q: Seq<char>, w: Seq<char>) -> bool {
    exists|a: int, b: int|
        #[trigger] bounds_term(w, a, b) && q == seq!['"'] + w.subrange(a, b) + seq!['"', '*']
}

proof fn lemma_term_from(w: Seq<char>) -> (a: int)
    ensures
        0 <= a <= w.len(),
        term_from(w) == w.skip(a),
        a < w.len() ==> is_alnum(w[a]) || w[a] == '-' || w[a] == '_',
        forall|i: int|
            0 <= i < a ==> !(is_alnum(#[trigger] w[i]) || w[i] == '-' || w[i] == '_'),
    decreases w.len(),
{
    if w.len() > 0 && !is_term_char(w[0]) {
        let rest = w.drop_first();
        let a = lemma_term_from(rest);
        assert(w.skip(a + 1) =~= rest.skip(a));
        assert forall|i: int| 0 <= i < a + 1 implies !(is_alnum(#[trigger] w[i]) || w[i] == '-'
            || w[i] == '_') by {
            if i > 0 {
                assert(w[i] == rest[i - 1]);
            }
        }
        a + 1
    } else {
        assert(w.skip(0) =~= w);
        0
    }
}

proof fn lemma_term_upto(w: Seq<char>) -> (b: int)
    ensures
        0 <= b <= w.len(),
        term_upto(w) == w.take(b),
        b > 0 ==> is_alnum(w[b - 1]) || w[b - 1] == '-' || w[b - 1] == '_',
        forall|i: int|
            b <= i < w.len() ==> !(is_alnum(#[trigger] w[i]) || w[i] == '-' || w[i] == '_'),
    decreases w.len(),
{
    if w.len() > 0 && !is_term_char(w.last()) {
        let rest = w.drop_last();
        let b = lemma_term_upto(rest);
        assert(w.take(b) =~= rest.take(b));
        assert forall|i: int| b <= i < w.len() implies !(is_alnum(#[trigger] w[i]) || w[i] == '-'
            || w[i] == '_') by {
            if i < rest.len() {
                assert(w[i] == rest[i]);
            }
        }
        b
    } else {
        assert(w.take(w.len() as int) =~= w);
        w.len() as int
    }
}

proof fn lemma_term_of_word(w: Seq<char>)
    ensures
        holds_term(w) <==> term_upto(term_from(w)).len() > 0,
        holds_term(w) ==> asks_for("\""@ + term_upto(term_from(w)) + "\"*"@, w),
{
    let a = lemma_term_from(w);
    let v = w.skip(a);
    let b = lemma_term_upto(v);
    let term = term_upto(term_from(w));
    assert forall|i: int| a + b <= i < w.len() implies !(is_alnum(#[trigger] w[i]) || w[i] == '-'
        || w[i] == '_') by {
        assert(w[i] == v[i - a]);
    }
    if term.len() > 0 {
        assert(v[0] == w[a]);
        assert(v[b - 1] == w[a + b - 1]);
        assert(bounds_term(w, a, a + b));
        assert(term =~= w.subrange(a, a + b));
        reveal_strlit("\"");
        reveal_strlit("\"*");
        assert("\""@ =~= seq!['"']);
        assert("\"*"@ =~= seq!['"', '*']);
    }
    if holds_term(w) {
        let i = choose|i: int|
            0 <= i < w.len() && (is_alnum(#[trigger] w[i]) || w[i] == '-' || w[i] == '_');
        assert(a <= i < a + b);
    }
}

proof fn lemma_quoted_terms(words: Seq<Seq<char>>)
    ensures
        quoted_terms(words).len() == words.filter(|w: Seq<char>| holds_term(w)).len(),
        forall|k: int|
            0 <= k < quoted_terms(words).len() ==> asks_for(
                #[trigger] quoted_terms(words)[k],
                words.filter(|w: Seq<char>| holds_term(w))[k],
            ),
    decreases words.len(),
{
    reveal(Seq::filter);
    if words.len() > 0 {
        lemma_quoted_terms(words.drop_last());
        lemma_term_of_word(words.last());
    }
}

/// The query for what a user typed has an alternative for each word that holds a
/// letter, a number, a hyphen or an underscore, in the order of the words, and no
/// other: the word without the characters around it, quoted and followed by a star.
/// The alternatives stand one behind the other with ` OR ` between them.
pub proof fn query_asks_for_each_word(raw: Seq<char>) -> (alternatives: Seq<Seq<char>>)
    ensures
        fts_query(raw) == join(alternatives, " OR "@),
        alternatives.len() == words_of(raw).filter(|w: Seq<char>| holds_term(w)).len(),
        forall|k: int|
            0 <= k < alternatives.len() ==> asks_for(
                #[trigger] alternatives[k],
                words_of(raw).filter(|w: Seq<char>| holds_term(w))[k],
            ),
        forall|i: int|
            0 <= i < words_of(raw).len() && holds_term(#[trigger] words_of(raw)[i]) ==> exists|k: int|
                0 <= k < alternatives.len() && asks_for(
                    #[trigger] alternatives[k],
                    words_of(raw)[i],
                ),
        (forall|i: int| 0 <= i < words_of(raw).len() ==> !holds_term(#[trigger] words_of(raw)[i]))
            ==> fts_query(raw).len() == 0,
{
    let words = words_of(raw);
    let p = |w: Seq<char>| holds_term(w);
    let terms = quoted_terms(words);
    lemma_quoted_terms(words);
    crate::picking::lemma_picked(words, p);
    assert forall|i: int| 0 <= i < words.len() && holds_term(#[trigger] words[i]) implies exists|
        k: int,
    | 0 <= k < terms.len() && asks_for(#[trigger] terms[k], words[i]) by {
        assert(words.contains(words[i]));
        assert(words.filter(p).contains(words[i]));
        let k = choose|k: int| 0 <= k < words.filter(p).len() && words.filter(p)[k] == words[i];
        assert(asks_for(terms[k], words[i]));
    }
    if forall|i: int| 0 <= i < words.len() ==> !holds_term(#[trigger] words[i]) {
        crate::picking::lemma_pick_none(words, p);
    }
    terms
}

// ---------------------------------------------------------------------------
// Bringing hits together
// ---------------------------------------------------------------------------

/// The constant of reciprocal rank fusion.
#[derive(Debug, Clone, Copy)]
pub struct RrfConfig {
    pub k: u32,
}

impl Default for RrfConfig {
    fn default() -> (r: Self)
        ensures
            r.k == 60,
    {
        RrfConfig { k: 60 }
    }
}

/// A chunk that one of the searches found: its rank in each, counted from 1.
#[derive(Debug)]
pub struct Candidate {
    pub chunk_id: String,
    pub bm25_rank: Option<usize>,
    pub vector_rank: Option<usize>,
}

/// What a `Candidate` says.
pub struct CandidateModel {
    pub chunk_id: Seq<char>,
    pub bm25_rank: Option<usize>,
    pub vector_rank: Option<usize>,
}

impl View for Candidate {
    type V = CandidateModel;

    open spec fn view(&self) -> CandidateModel {
        CandidateModel {
            chunk_id: self.chunk_id@,
            bm25_rank: self.bm25_rank,
            vector_rank: self.vector_rank,
        }
    }
}

/// The rank of an identifier: one more than the last position at which it
/// stands.
pub open spec fn rank_in(ids: Seq<Seq<char>>, id: Seq<char>) -> Option<usize>
    decreases ids.len(),
{
    if ids.len() == 0 {
        None
    } else if ids.last() == id {
        Some(ids.len() as usize)
    } else {
        rank_in(ids.drop_last(), id)
    }
}

/// The candidates of both searches: those of the full-text search first, each
/// chunk once.
pub open spec fn candidates_of(fts: Seq<Seq<char>>, vectors: Seq<Seq<char>>) -> Seq<CandidateModel> {
    crate::diagnostics::all_once(fts + vectors).map_values(
        |id: Seq<char>|
            CandidateModel {
                chunk_id: id,
                bm25_rank: rank_in(fts, id),
                vector_rank: rank_in(vectors, id),
            },
    )
}

fn find_rank(ids: &Vec<String>, id: &str) -> (r: Option<usize>)
    ensures
        r == rank_in(views(ids@), id@),
{
    let ghost all = views(ids@);
    let mut i: usize = ids.len();
    assert(all.take(i as int) =~= all);
    while i > 0
        invariant
            i <= ids@.len(),
            all == views(ids@),
            rank_in(all.take(i as int), id@) == rank_in(all, id@),
        decreases i,
    {
        assert(all.take(i as int).drop_last() =~= all.take(i as int - 1));
        assert(all[i as int - 1] == ids@[i as int - 1]@);
        if same(ids[i - 1].as_str(), id) {
            return Some(i);
        }
        i -= 1;
    }
    None
}

/// How many hits each search is asked for: three times as many as wanted, and at
/// least thirty.
pub fn candidate_pool(limit: usize) -> (r: usize)
    requires
        limit * 3 <= usize::MAX,
    ensures
        r == if limit * 3 >= 30 {
            limit * 3
        } else {
            30
        },
{
    if limit * 3 >= 30 {
        limit * 3
    } else {
        30
    }
}

/// The candidates of both searches, from the identifiers that each found in its
/// order.
pub fn merge_candidates(fts: &Vec<String>, vectors: &Vec<String>) -> (r: Vec<Candidate>)
    ensures
        views(r@) == candidates_of(views(fts@), views(vectors@)),
{
    broadcast use group_views;

    let ghost a = views(fts@);
    let ghost b = views(vectors@);
    let mut ids: Vec<String> = Vec::new();
    let mut i: usize = 0;
    assert((a + b).take(0) =~= Seq::empty());
    while i < fts.len()
        invariant
            i <= fts@.len(),
            a == views(fts@),
            b == views(vectors@),
            views(ids@) == crate::diagnostics::all_once((a + b).take(i as int)),
        decreases fts.len() - i,
    {
        assert((a + b).take(i as int + 1).drop_last() =~= (a + b).take(i as int));
        assert((a + b)[i as int] == fts@[i as int]@);
        crate::diagnostics::push_once(&mut ids, fts[i].as_str());
        i += 1;
    }
    let ghost base = a.len();
    let mut j: usize = 0;
    while j < vectors.len()
        invariant
            j <= vectors@.len(),
            base == a.len(),
            b == views(vectors@),
            views(ids@) == crate::diagnostics::all_once((a + b).take(base + j)),
        decreases vectors.len() - j,
    {
        assert((a + b).take(base + j + 1).drop_last() =~= (a + b).take(base + j));
        assert((a + b)[base + j] == vectors@[j as int]@);
        crate::diagnostics::push_once(&mut ids, vectors[j].as_str());
        j += 1;
    }
    assert((a + b).take(base + j) =~= a + b);
    let ghost wanted = candidates_of(a, b);
    let mut out: Vec<Candidate> = Vec::new();
    let mut k: usize = 0;
    while k < ids.len()
        invariant
            k <= ids@.len(),
            a == views(fts@),
            b == views(vectors@),
            views(ids@) == crate::diagnostics::all_once(a + b),
            wanted == candidates_of(a, b),
            views(out@) == wanted.take(k as int),
        decreases ids.len() - k,
    {
        assert(views(ids@)[k as int] == ids@[k as int]@);
        out.push(
            Candidate {
                chunk_id: ids[k].clone(),
                bm25_rank: find_rank(fts, ids[k].as_str()),
                vector_rank: find_rank(vectors, ids[k].as_str()),
            },
        );
        k += 1;
        assert(wanted.take(k as int) =~= wanted.take(k as int - 1).push(wanted[k as int - 1]));
    }
    assert(wanted.take(k as int) =~= wanted);
    out
}

/// A fraction.
#[derive(Debug, Clone, Copy, PartialEq, Eq, Structural)]
pub struct Fraction {
    pub num: u128,
    pub den: u128,
}

/// The fused score of a candidate, in millionths: each weight over the constant
/// plus the rank, added up. A search that did not find the candidate adds
/// nothing.
pub open spec fn is_fused_score(
    f: Fraction,
    weights: HybridWeights,
    k: u32,
    bm25: Option<u32>,
    vector: Option<u32>,
) -> bool {
    let a = match bm25 {
        Some(r) => k + r,
        None => 1,
    };
    let b = match vector {
        Some(r) => k + r,
        None => 1,
    };
    let wa: int = match bm25 {
        Some(_) => weights.bm25_weight as int,
        None => 0,
    };
    let wb: int = match vector {
        Some(_) => weights.vector_weight as int,
        None => 0,
    };
    f.den == a * b && f.num == wa * b + wb * a
}

/// The fused score of a candidate with these ranks, counted from 1, in
/// millionths.
pub fn fused_score(weights: HybridWeights, config: RrfConfig, bm25: Option<u32>, vector: Option<u32>)
    -> (r: Fraction)
    requires
        bm25 matches Some(n) ==> n >= 1,
        vector matches Some(n) ==> n >= 1,
    ensures
        is_fused_score(r, weights, config.k, bm25, vector),
        r.den > 0,
{
    let a: u128 = match bm25 {
        Some(n) => config.k as u128 + n as u128,
        None => 1,
    };
    let b: u128 = match vector {
        Some(n) => config.k as u128 + n as u128,
        None => 1,
    };
    let wa: u128 = match bm25 {
        Some(_) => weights.bm25_weight as u128,
        None => 0,
    };
    let wb: u128 = match vector {
        Some(_) => weights.vector_weight as u128,
        None => 0,
    };
    assert(a * b <= 0x2_0000_0000 * 0x2_0000_0000 && wa * b <= 0x1_0000_0000 * 0x2_0000_0000 && wb
        * a <= 0x1_0000_0000 * 0x2_0000_0000 && a * b > 0) by (nonlinear_arith)
        requires
            0 < a <= 0x2_0000_0000,
            0 < b <= 0x2_0000_0000,
            wa <= 0x1_0000_0000,
            wb <= 0x1_0000_0000,
    ;
    Fraction { num: wa * b + wb * a, den: a * b }
}

/// A better rank in one search never lowers the fused score.
pub proof fn better_rank_scores_higher(
    f: Fraction,
    g: Fraction,
    weights: HybridWeights,
    k: u32,
    better: u32,
    worse: u32,
    vector: Option<u32>,
)
    requires
        1 <= better <= worse,
        vector matches Some(n) ==> n >= 1,
        is_fused_score(f, weights, k, Some(better), vector),
        is_fused_score(g, weights, k, Some(worse), vector),
    ensures
        g.num * f.den <= f.num * g.den,
{
    let a = (k + better) as int;
    let c = (k + worse) as int;
    let b = match vector {
        Some(r) => (k + r) as int,
        None => 1,
    };
    let wa = weights.bm25_weight as int;
    let wb: int = match vector {
        Some(_) => weights.vector_weight as int,
        None => 0,
    };
    let x = wa * b;
    let low = a * b;
    let high = c * b;
    assert(x >= 0) by (nonlinear_arith)
        requires
            wa >= 0,
            b > 0,
            x == wa * b,
    ;
    assert(low <= high) by (nonlinear_arith)
        requires
            a <= c,
            b > 0,
            low == a * b,
            high == c * b,
    ;
    assert(x * low <= x * high) by (nonlinear_arith)
        requires
            x >= 0,
            low <= high,
    ;
    assert((wb * c) * low == (wb * a) * high) by (nonlinear_arith)
        requires
            low == a * b,
            high == c * b,
    ;
    assert((x + wb * c) * low == x * low + (wb * c) * low) by (nonlinear_arith);
    assert((x + wb * a) * high == x * high + (wb * a) * high) by (nonlinear_arith);
}

/// The first two hundred characters of a chunk.
pub fn snippet_of(content: &str) -> (r: String)
    ensures
        r@ == if content@.len() <= 200 {
            content@
        } else {
            content@.take(200)
        },
{
    let v = chars_of(content);
    let n: usize = if v.len() <= 200 {
        v.len()
    } else {
        200
    };
    let s = string_range(&v, 0, n);
    assert(s@ =~= content@.take(n as int));
    assert(content@.take(content@.len() as int) =~= content@);
    s
}

/// Which of the scored items come first: by falling score, the first `limit`.
pub open spec fn best_first(keys: Seq<u32>, limit: nat) -> Seq<(usize, u32)> {
    crate::trails::first_of(
        sorted_by(
            Seq::new(keys.len(), |i: int| (i as usize, keys[i])),
            |a: (usize, u32), b: (usize, u32)| a.1 > b.1,
        ),
        limit,
    )
}

fn key_less(a: &(usize, u32), b: &(usize, u32)) -> (r: bool)
    ensures
        r == (a.1 > b.1),
{
    a.1 > b.1
}

/// The places of the scored items in the order of falling score, the first
/// `limit`; items with equal scores keep their order.
pub fn rank_by_score(keys: &Vec<u32>, limit: usize) -> (r: Vec<(usize, u32)>)
    ensures
        r@ == best_first(keys@, limit as nat),
{
    let ghost wanted = Seq::new(keys@.len(), |i: int| (i as usize, keys@[i]));
    let mut items: Vec<(usize, u32)> = Vec::new();
    let mut i: usize = 0;
    while i < keys.len()
        invariant
            i <= keys@.len(),
            wanted == Seq::new(keys@.len(), |i: int| (i as usize, keys@[i])),
            items@ == wanted.take(i as int),
        decreases keys.len() - i,
    {
        items.push((i, keys[i]));
        i += 1;
        assert(items@ =~= wanted.take(i as int));
    }
    assert(wanted.take(i as int) =~= wanted);
    let ghost lt = |a: (usize, u32), b: (usize, u32)| a.1 > b.1;
    let mut sorted = sort_by(items, key_less, Ghost(lt));
    if sorted.len() > limit {
        sorted.truncate(limit);
    }
    sorted
}

// ---------------------------------------------------------------------------
// What lifts a hit
// ---------------------------------------------------------------------------

/// How much a match lifts a hit, in millionths, and how far all of it together.
#[derive(Debug, Clone, Copy)]
pub struct PkbReranker {
    pub title_exact_multiplier: u32,
    pub title_partial_multiplier: u32,
    pub heading_exact_multiplier: u32,
    pub heading_partial_multiplier: u32,
    pub tag_match_multiplier: u32,
    pub max_pagerank_boost: u32,
    pub max_composite_multiplier: u32,
}

impl Default for PkbReranker {
    fn default() -> (r: Self)
        ensures
            r.title_exact_multiplier == 2_500_000,
            r.title_partial_multiplier == 1_600_000,
            r.heading_exact_multiplier == 2_000_000,
            r.heading_partial_multiplier == 1_300_000,
            r.tag_match_multiplier == 1_500_000,
            r.max_pagerank_boost == 200_000,
            r.max_composite_multiplier == 5_000_000,
    {
        PkbReranker {
            title_exact_multiplier: 2_500_000,
            title_partial_multiplier: 1_600_000,
            heading_exact_multiplier: 2_000_000,
            heading_partial_multiplier: 1_300_000,
            tag_match_multiplier: 1_500_000,
            max_pagerank_boost: 200_000,
            max_composite_multiplier: 5_000_000,
        }
    }
}

/// A text as matches compare it.
pub open spec fn match_key(s: Seq<char>) -> Seq<char> {
    lowercase(trim(s))
}

/// Whether one of the tags is the query or a part of it.
pub open spec fn tag_matches(tags: Seq<Seq<char>>, q: Seq<char>) -> bool {
    exists|k: int|
        0 <= k < tags.len() && contains_str(
            q,
            lowercase(trim_start_char(#[trigger] tags[k], '#')),
        )
}

/// One million, which a rank of 1 stands for.
pub const FULL_RANK: u32 = 1_000_000;

impl PkbReranker {
    /// What the title adds.
    pub open spec fn title_factor(&self, q: Seq<char>, title: Seq<char>) -> u32 {
        if title == q {
            self.title_exact_multiplier
        } else if contains_str(title, q) || contains_str(q, title) {
            self.title_partial_multiplier
        } else {
            1_000_000
        }
    }

    /// What the headings add.
    pub open spec fn heading_factor(&self, q: Seq<char>, breadcrumbs: Seq<char>) -> u32 {
        if q.is_suffix_of(breadcrumbs) {
            self.heading_exact_multiplier
        } else if contains_str(breadcrumbs, q) {
            self.heading_partial_multiplier
        } else {
            1_000_000
        }
    }

    /// What the tags add.
    pub open spec fn tag_factor(&self, q: Seq<char>, tags: Seq<Seq<char>>) -> u32 {
        if tag_matches(tags, q) {
            self.tag_match_multiplier
        } else {
            1_000_000
        }
    }

    /// The boost of a hit, in units of 10^-30: the factors of title, headings and
    /// tags and the share of its rank, multiplied and capped. The rank is in
    /// millionths.
    pub open spec fn boost(
        &self,
        query: Seq<char>,
        title: Seq<char>,
        breadcrumbs: Seq<char>,
        tags: Seq<Seq<char>>,
        rank: u32,
    ) -> int {
        let q = match_key(query);
        let share = 1_000_000_000_000 + self.max_pagerank_boost * (if rank <= FULL_RANK {
            rank
        } else {
            FULL_RANK
        });
        let product = self.title_factor(q, match_key(title)) * self.heading_factor(
            q,
            match_key(breadcrumbs),
        ) * self.tag_factor(q, tags) * share;
        let cap = self.max_composite_multiplier * 1_000_000_000_000_000_000_000_000;
        if product <= cap {
            product
        } else {
            cap
        }
    }

    fn has_tag(&self, tags: &Vec<String>, q: &str) -> (r: bool)
        ensures
            r == tag_matches(views(tags@), q@),
    {
        let ghost all = views(tags@);
        let mut k: usize = 0;
        while k < tags.len()
            invariant
                k <= tags@.len(),
                all == views(tags@),
                forall|j: int|
                    0 <= j < k ==> !contains_str(
                        q@,
                        lowercase(trim_start_char(#[trigger] all[j], '#')),
                    ),
            decreases tags.len() - k,
        {
            assert(all[k as int] == tags@[k as int]@);
            let bare = str_trim_start_char(tags[k].as_str(), '#');
            let low = to_lowercase(bare.as_str());
            if str_contains(q, low.as_str()) {
                return true;
            }
            k += 1;
        }
        false
    }

    /// The boost of a hit, in units of 10^-30.
    pub fn compute_boost(
        &self,
        query: &str,
        title: &str,
        breadcrumbs: &str,
        tags: &Vec<String>,
        rank: u32,
    ) -> (r: u128)
        ensures
            r == self.boost(query@, title@, breadcrumbs@, views(tags@), rank),
    {
        let trimmed_q = str_trim(query);
        let trimmed_t = str_trim(title);
        let trimmed_b = str_trim(breadcrumbs);
        let q = to_lowercase(trimmed_q.as_str());
        let t = to_lowercase(trimmed_t.as_str());
        let b = to_lowercase(trimmed_b.as_str());
        let title_factor: u32 = if same(t.as_str(), q.as_str()) {
            self.title_exact_multiplier
        } else if str_contains(t.as_str(), q.as_str()) || str_contains(q.as_str(), t.as_str()) {
            self.title_partial_multiplier
        } else {
            1_000_000
        };
        let heading_factor: u32 = if str_ends_with(b.as_str(), q.as_str()) {
            self.heading_exact_multiplier
        } else if str_contains(b.as_str(), q.as_str()) {
            self.heading_partial_multiplier
        } else {
            1_000_000
        };
        let tag_factor: u32 = if self.has_tag(tags, q.as_str()) {
            self.tag_match_multiplier
        } else {
            1_000_000
        };
        let clamped: u32 = if rank <= FULL_RANK {
            rank
        } else {
            FULL_RANK
        };
        let (x, y, z): (u128, u128, u128) = (
            title_factor as u128,
            heading_factor as u128,
            tag_factor as u128,
        );
        let m: u128 = self.max_pagerank_boost as u128;
        let c: u128 = clamped as u128;
        assert(m * c <= 0xffff_ffff * 1_000_000) by (nonlinear_arith)
            requires
                m <= 0xffff_ffff,
                c <= 1_000_000,
        ;
        let share: u128 = 1_000_000_000_000 + m * c;
        assert(x * y <= 0xffff_ffff * 0xffff_ffff) by (nonlinear_arith)
            requires
                x <= 0xffff_ffff,
                y <= 0xffff_ffff,
        ;
        assert((x * y) * z <= 0xffff_ffff_ffff_ffff * 0xffff_ffff) by (nonlinear_arith)
            requires
                x * y <= 0xffff_ffff * 0xffff_ffff,
                z <= 0xffff_ffff,
        ;
        let whole = product(x * y * z, share);
        let cap: u128 = (self.max_composite_multiplier as u128)
            * 1_000_000_000_000_000_000_000_000;
        let limit = widened(cap);
        if is_less(&limit, &whole) {
            cap
        } else {
            whole.lo
        }
    }
}

/// No boost goes over the cap.
pub proof fn boost_is_capped(
    r: PkbReranker,
    query: Seq<char>,
    title: Seq<char>,
    breadcrumbs: Seq<char>,
    tags: Seq<Seq<char>>,
    rank: u32,
)
    ensures
        r.boost(query, title, breadcrumbs, tags, rank) <= r.max_composite_multiplier
            * 1_000_000_000_000_000_000_000_000,
{
}

// ---------------------------------------------------------------------------
// What holds of a search
// ---------------------------------------------------------------------------

/// A query is taken for code where it holds one of the marks of code, wherever the mark
/// stands; else for language where it ends in a question mark, holds a word that
/// questions hold, or has five words or more. Code counts words more than meaning,
/// language meaning more than words, and everything else both alike.
pub proof fn marks_tell_what_a_query_is_after(query: Seq<char>)
    ensures
        ({
            let q = trim(query);
            let w = weights_for(query);
            let words = words_of(lowercase(q));
            &&& contains_str(q, "::"@) || contains_str(q, "->"@) || contains_str(q, "()"@)
                || q.contains('_') ==> w.intent == QueryIntent::CodeSymbol
            &&& "#"@.is_prefix_of(q) || ("\""@.is_prefix_of(q) && "\""@.is_suffix_of(q))
                ==> w.intent == QueryIntent::CodeSymbol
            &&& ".rs"@.is_suffix_of(q) || ".md"@.is_suffix_of(q) || ".ts"@.is_suffix_of(q)
                || ".py"@.is_suffix_of(q) ==> w.intent == QueryIntent::CodeSymbol
            &&& "fn "@.is_prefix_of(q) || "struct "@.is_prefix_of(q) || "class "@.is_prefix_of(q)
                || "impl "@.is_prefix_of(q) || "enum "@.is_prefix_of(q) || "trait "@.is_prefix_of(q)
                || "interface "@.is_prefix_of(q) || "type "@.is_prefix_of(q) || "def "@.is_prefix_of(
                q,
            ) || "let "@.is_prefix_of(q) ==> w.intent == QueryIntent::CodeSymbol
            &&& w.intent != QueryIntent::CodeSymbol && ("?"@.is_suffix_of(lowercase(q))
                || words.len() >= 5 || words.contains("how"@) || words.contains("why"@)
                || words.contains("what"@) || words.contains("where"@) || words.contains("when"@)
                || words.contains("explain"@) || words.contains("describe"@) || words.contains(
                "difference"@,
            )) ==> w.intent == QueryIntent::NaturalLanguage
            &&& w.intent == QueryIntent::CodeSymbol ==> w.bm25_weight == 850_000
            &&& w.intent == QueryIntent::NaturalLanguage ==> w.bm25_weight == 200_000
            &&& w.intent == QueryIntent::BalancedHybrid ==> w.bm25_weight == 500_000
            &&& w.bm25_weight + w.vector_weight == 1_000_000
        }),
{
    let lower = lowercase(trim(query));
    let words = words_of(lower);
    assert forall|x: Seq<char>| #[trigger] words.contains(x) && is_question_word(x) implies looks_like_language(
        lower,
    ) by {
        let k = choose|k: int| 0 <= k < words.len() && words[k] == x;
        assert(is_question_word(words_of(lower)[k]));
    }
}

/// Only a query that holds one of the marks of code is taken for code, and only one that
/// asks, or has five words or more, for language.
pub proof fn nothing_else_tells_what_a_query_is_after(query: Seq<char>)
    requires
        ({
            let q = trim(query);
            &&& !contains_str(q, "::"@) && !contains_str(q, "->"@) && !contains_str(q, "()"@)
            &&& !q.contains('_') && !"#"@.is_prefix_of(q)
            &&& !("\""@.is_prefix_of(q) && "\""@.is_suffix_of(q))
            &&& !".rs"@.is_suffix_of(q) && !".md"@.is_suffix_of(q) && !".ts"@.is_suffix_of(q)
            &&& !".py"@.is_suffix_of(q) && !"fn "@.is_prefix_of(q) && !"struct "@.is_prefix_of(q)
            &&& !"class "@.is_prefix_of(q) && !"impl "@.is_prefix_of(q) && !"enum "@.is_prefix_of(q)
            &&& !"trait "@.is_prefix_of(q) && !"interface "@.is_prefix_of(q)
            &&& !"type "@.is_prefix_of(q) && !"def "@.is_prefix_of(q) && !"let "@.is_prefix_of(q)
        }),
    ensures
        weights_for(query).intent != QueryIntent::CodeSymbol,
        ({
            let lower = lowercase(trim(query));
            let words = words_of(lower);
            !"?"@.is_suffix_of(lower) && words.len() < 5 && (forall|x: Seq<char>| #[trigger]
                words.contains(x) ==> x != "how"@ && x != "why"@ && x != "what"@ && x != "where"@ && x
                    != "when"@ && x != "explain"@ && x != "describe"@ && x != "difference"@)
                ==> weights_for(query).intent == QueryIntent::BalancedHybrid
        }),
{
    let lower = lowercase(trim(query));
    let words = words_of(lower);
    if looks_like_language(lower) && !"?"@.is_suffix_of(lower) && words.len() < 5 {
        let k = choose|k: int| 0 <= k < words.len() && is_question_word(#[trigger] words[k]);
        assert(words.contains(words[k]));
    }
}

proof fn lemma_rank_in(ids: Seq<Seq<char>>, id: Seq<char>)
    requires
        ids.len() <= usize::MAX,
    ensures
        rank_in(ids, id) is None <==> !ids.contains(id),
        rank_in(ids, id) matches Some(n) ==> 1 <= n <= ids.len() && ids[n - 1] == id && forall|j: int|
            n <= j < ids.len() ==> #[trigger] ids[j] != id,
    decreases ids.len(),
{
    if ids.len() > 0 {
        let rest = ids.drop_last();
        if ids.last() == id {
            assert(ids[ids.len() - 1] == id);
        } else {
            lemma_rank_in(rest, id);
            if ids.contains(id) {
                let k = choose|k: int| 0 <= k < ids.len() && ids[k] == id;
                assert(rest[k] == id);
            }
            if rank_in(rest, id) is Some {
                let n = rank_in(rest, id)->0;
                assert(ids[n - 1] == rest[n - 1]);
                assert forall|j: int| n <= j < ids.len() implies #[trigger] ids[j] != id by {
                    if j < rest.len() {
                        assert(rest[j] == ids[j]);
                    }
                }
            }
        }
    }
}

/// Every chunk that either search found is a candidate once, and nothing else is. Its
/// rank in a search is where the search has it, counted from 1, and it has none where
/// the search has not found it.
pub proof fn every_hit_is_a_candidate_once(fts: Seq<Seq<char>>, vectors: Seq<Seq<char>>)
    requires
        fts.len() <= usize::MAX,
        vectors.len() <= usize::MAX,
    ensures
        forall|i: int, j: int|
            0 <= i < j < candidates_of(fts, vectors).len() ==> (#[trigger] candidates_of(
                fts,
                vectors,
            )[i]).chunk_id != (#[trigger] candidates_of(fts, vectors)[j]).chunk_id,
        forall|i: int|
            0 <= i < candidates_of(fts, vectors).len() ==> is_candidate(
                fts,
                vectors,
                #[trigger] candidates_of(fts, vectors)[i],
            ),
        forall|id: Seq<char>|
            fts.contains(id) || vectors.contains(id) ==> #[trigger] has_candidate(
                candidates_of(fts, vectors),
                id,
            ),
{
    let all = fts + vectors;
    let ids = crate::diagnostics::all_once(all);
    let r = candidates_of(fts, vectors);
    once_keeps_everything(all);
    assert forall|i: int| 0 <= i < r.len() implies is_candidate(fts, vectors, #[trigger] r[i]) by {
        lemma_rank_in(fts, ids[i]);
        lemma_rank_in(vectors, ids[i]);
        assert(ids.contains(ids[i]));
        let k = choose|k: int| 0 <= k < all.len() && all[k] == ids[i];
        if k < fts.len() {
            assert(fts[k] == ids[i]);
        } else {
            assert(vectors[k - fts.len()] == ids[i]);
        }
    }
    assert forall|id: Seq<char>|
        fts.contains(id) || vectors.contains(id) implies #[trigger] has_candidate(r, id) by {
        if fts.contains(id) {
            let k = choose|k: int| 0 <= k < fts.len() && fts[k] == id;
            assert(all[k] == id);
        } else {
            let k = choose|k: int| 0 <= k < vectors.len() && vectors[k] == id;
            assert(all[fts.len() + k] == id);
        }
        assert(ids.contains(id));
        let i = choose|i: int| 0 <= i < ids.len() && ids[i] == id;
        assert(r[i].chunk_id == id);
    }
}

/// Whether a search has an identifier at this rank and not again behind it, or does not
/// have it at all.
pub open spec fn is_rank(ids: Seq<Seq<char>>, id: Seq<char>, rank: Option<usize>) -> bool {
    match rank {
        Some(n) => 1 <= n <= ids.len() && ids[n - 1] == id && forall|j: int|
            n <= j < ids.len() ==> #[trigger] ids[j] != id,
        None => !ids.contains(id),
    }
}

/// Whether a chunk is among the candidates.
pub open spec fn has_candidate(cs: Seq<CandidateModel>, id: Seq<char>) -> bool {
    exists|i: int| 0 <= i < cs.len() && (#[trigger] cs[i]).chunk_id == id
}

/// Whether a candidate is one that the searches found, with its ranks.
pub open spec fn is_candidate(
    fts: Seq<Seq<char>>,
    vectors: Seq<Seq<char>>,
    c: CandidateModel,
) -> bool {
    &&& is_rank(fts, c.chunk_id, c.bm25_rank)
    &&& is_rank(vectors, c.chunk_id, c.vector_rank)
    &&& c.bm25_rank is Some || c.vector_rank is Some
}

/// A hit of one search alone scores its weight over the constant plus its rank, and a
/// hit of both scores what it would in each alone, added up.
pub proof fn fused_scores_add_up(
    f: Fraction,
    g: Fraction,
    h: Fraction,
    weights: HybridWeights,
    k: u32,
    bm25: u32,
    vector: u32,
)
    requires
        bm25 >= 1,
        vector >= 1,
        is_fused_score(f, weights, k, Some(bm25), None),
        is_fused_score(g, weights, k, None, Some(vector)),
        is_fused_score(h, weights, k, Some(bm25), Some(vector)),
    ensures
        f.num * (k + bm25) == weights.bm25_weight * f.den,
        g.num * (k + vector) == weights.vector_weight * g.den,
        h.num * (f.den * g.den) == (f.num * g.den + g.num * f.den) * h.den,
{
    let a = (k + bm25) as int;
    let b = (k + vector) as int;
    let wa = weights.bm25_weight as int;
    let wb = weights.vector_weight as int;
    assert(f.den == a * 1 && f.num == wa * 1 + 0 * a);
    assert(g.den == 1 * b && g.num == 0 * b + wb * 1);
    assert(h.den == a * b && h.num == wa * b + wb * a);
    assert((wa * b + wb * a) * (a * b) == (wa * b + wb * a) * (a * b));
}

/// The best hits come first: their scores never rise, each is the score of its item,
/// and no item that is left out scores higher than one that is not.
pub proof fn best_hits_come_first(keys: Seq<u32>, limit: nat)
    requires
        keys.len() <= usize::MAX,
    ensures
        best_first(keys, limit).len() <= limit,
        best_first(keys, limit).len() == limit || best_first(keys, limit).len() == keys.len(),
        forall|i: int, j: int|
            0 <= i < j < best_first(keys, limit).len() ==> (#[trigger] best_first(keys, limit)[i]).1
                >= (#[trigger] best_first(keys, limit)[j]).1 && best_first(keys, limit)[i].0
                != best_first(keys, limit)[j].0,
        forall|i: int|
            0 <= i < best_first(keys, limit).len() ==> (#[trigger] best_first(keys, limit)[i]).0
                < keys.len() && best_first(keys, limit)[i].1 == keys[best_first(
                keys,
                limit,
            )[i].0 as int],
        forall|k: int, i: int|
            0 <= k < keys.len() && 0 <= i < best_first(keys, limit).len() && !best_first(
                keys,
                limit,
            ).contains((k as usize, keys[k])) ==> #[trigger] keys[k] <= (
            #[trigger] best_first(keys, limit)[i]).1,
{
    let s = Seq::new(keys.len(), |i: int| (i as usize, keys[i]));
    let lt = |a: (usize, u32), b: (usize, u32)| a.1 > b.1;
    let t = sorted_by(s, lt);
    let r = best_first(keys, limit);
    assert(is_weak_order(lt));
    first_sorted_are_the_least(s, lt, limit);
    assert(s.no_duplicates()) by {
        assert forall|i: int, j: int| 0 <= i < s.len() && 0 <= j < s.len() && i != j implies s[i]
            != s[j] by {
            assert(s[i].0 == i && s[j].0 == j);
        }
    }
    sorted_differ(s, lt);
    assert forall|i: int| 0 <= i < r.len() implies (#[trigger] r[i]).0 < keys.len() && r[i].1
        == keys[r[i].0 as int] by {
        assert(s.contains(r[i]));
        let k = choose|k: int| 0 <= k < s.len() && s[k] == r[i];
        assert(s[k] == (k as usize, keys[k]));
    }
    assert forall|i: int, j: int| 0 <= i < j < r.len() implies (#[trigger] r[i]).1 >= (
    #[trigger] r[j]).1 && r[i].0 != r[j].0 by {
        assert(!lt(r[j], r[i]));
        assert(r[i] == t[i] && r[j] == t[j]);
        assert(t[i] != t[j]);
    }
    assert forall|k: int, i: int|
        0 <= k < keys.len() && 0 <= i < r.len() && !r.contains((k as usize, keys[k])) implies
        #[trigger] keys[k] <= (#[trigger] r[i]).1 by {
        assert(s[k] == (k as usize, keys[k]));
        assert(!lt(s[k], r[i]));
    }
}

/// Hits that score the same keep their order.
pub proof fn equal_hits_keep_their_order(keys: Seq<u32>, limit: nat, i: int, j: int)
    requires
        keys.len() <= usize::MAX,
        0 <= i < j < best_first(keys, limit).len(),
        best_first(keys, limit)[i].1 == best_first(keys, limit)[j].1,
    ensures
        best_first(keys, limit)[i].0 < best_first(keys, limit)[j].0,
{
    let s = Seq::new(keys.len(), |i: int| (i as usize, keys[i]));
    let lt = |a: (usize, u32), b: (usize, u32)| a.1 > b.1;
    let t = sorted_by(s, lt);
    lemma_places_rise(s, lt);
    sorted_keeps_items(s, lt);
    assert(t[i] == best_first(keys, limit)[i] && t[j] == best_first(keys, limit)[j]);
}

proof fn lemma_places_rise(s: Seq<(usize, u32)>, lt: spec_fn((usize, u32), (usize, u32)) -> bool)
    requires
        lt == (|a: (usize, u32), b: (usize, u32)| a.1 > b.1),
        forall|i: int, j: int|
            0 <= i < j < s.len() ==> (#[trigger] s[i]).0 < (#[trigger] s[j]).0,
    ensures
        forall|i: int, j: int|
            0 <= i < j < sorted_by(s, lt).len() && sorted_by(s, lt)[i].1 == sorted_by(s, lt)[j].1
                ==> (#[trigger] sorted_by(s, lt)[i]).0 < (#[trigger] sorted_by(s, lt)[j]).0,
{
    let t = sorted_by(s, lt);
    assert forall|i: int, j: int| 0 <= i < j < t.len() && t[i].1 == t[j].1 implies (
    #[trigger] t[i]).0 < (#[trigger] t[j]).0 by {
        let key = t[i].1;
        let p = |a: (usize, u32)| a.1 == key;
        sorting_keeps_order_of_equals(s, lt, p);
        lemma_rising_picks(s, p);
        lemma_picked_places(t, p, i, j);
    }
}

proof fn lemma_rising_picks(s: Seq<(usize, u32)>, p: spec_fn((usize, u32)) -> bool)
    requires
        forall|i: int, j: int|
            0 <= i < j < s.len() ==> (#[trigger] s[i]).0 < (#[trigger] s[j]).0,
    ensures
        forall|i: int, j: int|
            0 <= i < j < s.filter(p).len() ==> (#[trigger] s.filter(p)[i]).0 < (
            #[trigger] s.filter(p)[j]).0,
    decreases s.len(),
{
    reveal(Seq::filter);
    if s.len() > 0 {
        let rest = s.drop_last();
        assert forall|i: int, j: int| 0 <= i < j < rest.len() implies (#[trigger] rest[i]).0 < (
        #[trigger] rest[j]).0 by {
            assert(rest[i] == s[i] && rest[j] == s[j]);
        }
        lemma_rising_picks(rest, p);
        crate::picking::lemma_picked(rest, p);
        let before = rest.filter(p);
        let r = s.filter(p);
        assert forall|i: int, j: int| 0 <= i < j < r.len() implies (#[trigger] r[i]).0 < (
        #[trigger] r[j]).0 by {
            assert(r[i] == before[i]);
            if j < before.len() {
                assert(r[j] == before[j]);
            } else {
                assert(before.contains(before[i]));
                let k = choose|k: int| 0 <= k < rest.len() && rest[k] == before[i];
                assert(s[k] == before[i]);
                assert(s[s.len() - 1] == r[j]);
            }
        }
    }
}

proof fn lemma_picked_places(t: Seq<(usize, u32)>, p: spec_fn((usize, u32)) -> bool, i: int, j: int)
    requires
        0 <= i < j < t.len(),
        p(t[i]),
        p(t[j]),
    ensures
        exists|a: int, b: int|
            0 <= a < b < t.filter(p).len() && #[trigger] t.filter(p)[a] == t[i] && #[trigger] t.filter(
                p,
            )[b] == t[j],
    decreases t.len(),
{
    reveal(Seq::filter);
    let rest = t.drop_last();
    let before = rest.filter(p);
    let r = t.filter(p);
    if j < rest.len() {
        lemma_picked_places(rest, p, i, j);
        let (a, b) = choose|a: int, b: int|
            0 <= a < b < before.len() && #[trigger] before[a] == rest[i] && #[trigger] before[b]
                == rest[j];
        assert(r[a] == t[i] && r[b] == t[j]);
    } else {
        crate::picking::lemma_picked(rest, p);
        assert(rest.contains(rest[i]));
        assert(before.contains(rest[i]));
        let a = choose|a: int| 0 <= a < before.len() && before[a] == rest[i];
        assert(r[a] == t[i] && r[before.len() as int] == t[j]);
    }
}

/// What a title, the headings, the tags and the rank add to a hit are multiplied. A
/// title that is the query counts as exact, else one that holds the query or is held by
/// it as partial; headings that end in the query count as exact, else those that hold
/// it as partial; a tag counts that the query holds. Nothing else counts.
pub proof fn boost_is_the_product_of_its_parts(
    r: PkbReranker,
    query: Seq<char>,
    title: Seq<char>,
    breadcrumbs: Seq<char>,
    tags: Seq<Seq<char>>,
    rank: u32,
    by_title: int,
    by_heading: int,
    by_tag: int,
)
    requires
        ({
            let q = lowercase(trim(query));
            let t = lowercase(trim(title));
            let b = lowercase(trim(breadcrumbs));
            &&& t == q ==> by_title == r.title_exact_multiplier
            &&& t != q && (contains_str(t, q) || contains_str(q, t)) ==> by_title
                == r.title_partial_multiplier
            &&& !contains_str(t, q) && !contains_str(q, t) && t != q ==> by_title == 1_000_000
            &&& q.is_suffix_of(b) ==> by_heading == r.heading_exact_multiplier
            &&& !q.is_suffix_of(b) && contains_str(b, q) ==> by_heading
                == r.heading_partial_multiplier
            &&& !q.is_suffix_of(b) && !contains_str(b, q) ==> by_heading == 1_000_000
            &&& (exists|k: int|
                0 <= k < tags.len() && contains_str(
                    q,
                    lowercase(trim_start_char(#[trigger] tags[k], '#')),
                )) ==> by_tag == r.tag_match_multiplier
            &&& (forall|k: int|
                0 <= k < tags.len() ==> !contains_str(
                    q,
                    lowercase(trim_start_char(#[trigger] tags[k], '#')),
                )) ==> by_tag == 1_000_000
        }),
    ensures
        ({
            let whole = by_title * by_heading * by_tag * (1_000_000_000_000
                + r.max_pagerank_boost * (if rank <= 1_000_000 {
                rank as int
            } else {
                1_000_000
            }));
            let cap = r.max_composite_multiplier * 1_000_000_000_000_000_000_000_000;
            let boost = r.boost(query, title, breadcrumbs, tags, rank);
            &&& whole <= cap ==> boost == whole
            &&& whole >= cap ==> boost == cap
        }),
{
}

/// A more central note is never lifted less.
pub proof fn rank_never_lowers_a_boost(
    r: PkbReranker,
    query: Seq<char>,
    title: Seq<char>,
    breadcrumbs: Seq<char>,
    tags: Seq<Seq<char>>,
    low: u32,
    high: u32,
)
    requires
        low <= high,
    ensures
        r.boost(query, title, breadcrumbs, tags, low) <= r.boost(
            query,
            title,
            breadcrumbs,
            tags,
            high,
        ),
{
    let q = match_key(query);
    let (x, y, z) = (
        r.title_factor(q, match_key(title)) as int,
        r.heading_factor(q, match_key(breadcrumbs)) as int,
        r.tag_factor(q, tags) as int,
    );
    let a = 1_000_000_000_000 + r.max_pagerank_boost * (if low <= FULL_RANK {
        low
    } else {
        FULL_RANK
    });
    let b = 1_000_000_000_000 + r.max_pagerank_boost * (if high <= FULL_RANK {
        high
    } else {
        FULL_RANK
    });
    assert(a <= b) by (nonlinear_arith)
        requires
            low <= high,
            a == 1_000_000_000_000 + r.max_pagerank_boost * (if low <= FULL_RANK {
                low
            } else {
                FULL_RANK
            }),
            b == 1_000_000_000_000 + r.max_pagerank_boost * (if high <= FULL_RANK {
                high
            } else {
                FULL_RANK
            }),
    ;
    assert(x * y * z * a <= x * y * z * b) by (nonlinear_arith)
        requires
            a <= b,
            x >= 0,
            y >= 0,
            z >= 0,
    ;
}

} // verus!
