//! Corrections for mistyped names.

use crate::sorting::{in_order, is_weak_order, lemma_sorted_views, sort_by, sorted_by};
use crate::text::{
    ascii_lower, char_ascii_lower, chars_of, group_views, lowercase, same, str_lt, text_lt,
    texts_are_ordered, to_lowercase, views,
};
use vstd::prelude::*;

verus! {

/// The smaller of two numbers.
pub open spec fn least(a: nat, b: nat) -> nat {
    if a <= b {
        a
    } else {
        b
    }
}

/// The larger of two numbers.
pub open spec fn most(a: nat, b: nat) -> nat {
    if a >= b {
        a
    } else {
        b
    }
}

/// Whether two characters are the same up to the case of ASCII letters.
pub open spec fn same_letter(a: char, b: char) -> bool {
    ascii_lower(a) == ascii_lower(b)
}

/// Whether two texts are the same up to the case of ASCII letters.
pub open spec fn same_ignoring_case(a: Seq<char>, b: Seq<char>) -> bool {
    a.len() == b.len() && forall|k: int| 0 <= k < a.len() ==> same_letter(#[trigger] a[k], b[k])
}

/// The least number of insertions, deletions, replacements and swaps of
/// neighbours that turn the first `i` characters of `a` into the first `j` of
/// `b`, none of them touching a swapped pair again. The case of ASCII letters
/// does not count.
pub open spec fn edit_distance(a: Seq<char>, b: Seq<char>, i: nat, j: nat) -> nat
    decreases i, j,
{
    if i == 0 {
        j
    } else if j == 0 {
        i
    } else {
        let drop = edit_distance(a, b, (i - 1) as nat, j) + 1;
        let put = edit_distance(a, b, i, (j - 1) as nat) + 1;
        let swap = edit_distance(a, b, (i - 1) as nat, (j - 1) as nat) + if same_letter(
            a[i - 1],
            b[j - 1],
        ) {
            0nat
        } else {
            1nat
        };
        let plain = least(least(drop, put), swap);
        if i > 1 && j > 1 && same_letter(a[i - 1], b[j - 2]) && same_letter(a[i - 2], b[j - 1]) {
            least(plain, edit_distance(a, b, (i - 2) as nat, (j - 2) as nat) + 1)
        } else {
            plain
        }
    }
}

/// The distance between two texts.
pub open spec fn distance(a: Seq<char>, b: Seq<char>) -> nat {
    edit_distance(a, b, a.len(), b.len())
}

/// A distance is at most the longer length and at least the difference of the
/// lengths.
pub proof fn lemma_distance_bounds(a: Seq<char>, b: Seq<char>, i: nat, j: nat)
    ensures
        edit_distance(a, b, i, j) <= most(i, j),
        edit_distance(a, b, i, j) >= i - j,
        edit_distance(a, b, i, j) >= j - i,
    decreases i, j,
{
    if i > 0 && j > 0 {
        lemma_distance_bounds(a, b, (i - 1) as nat, j);
        lemma_distance_bounds(a, b, i, (j - 1) as nat);
        lemma_distance_bounds(a, b, (i - 1) as nat, (j - 1) as nat);
        if i > 1 && j > 1 {
            lemma_distance_bounds(a, b, (i - 2) as nat, (j - 2) as nat);
        }
    }
}

/// The distance is the same from either side.
pub proof fn distance_symmetric(a: Seq<char>, b: Seq<char>)
    ensures
        distance(a, b) == distance(b, a),
{
    lemma_symmetric(a, b, a.len(), b.len());
}

proof fn lemma_symmetric(a: Seq<char>, b: Seq<char>, i: nat, j: nat)
    ensures
        edit_distance(a, b, i, j) == edit_distance(b, a, j, i),
    decreases i, j,
{
    if i > 0 && j > 0 {
        lemma_symmetric(a, b, (i - 1) as nat, j);
        lemma_symmetric(a, b, i, (j - 1) as nat);
        lemma_symmetric(a, b, (i - 1) as nat, (j - 1) as nat);
        if i > 1 && j > 1 {
            lemma_symmetric(a, b, (i - 2) as nat, (j - 2) as nat);
        }
    }
}

/// Two texts have distance 0 exactly where they are the same up to the case of
/// ASCII letters.
pub proof fn distance_zero(a: Seq<char>, b: Seq<char>)
    ensures
        distance(a, b) == 0 <==> same_ignoring_case(a, b),
{
    lemma_zero(a, b, a.len(), b.len());
}

proof fn lemma_zero(a: Seq<char>, b: Seq<char>, i: nat, j: nat)
    requires
        i <= a.len(),
        j <= b.len(),
    ensures
        edit_distance(a, b, i, j) == 0 <==> (i == j && forall|k: int|
            0 <= k < i ==> same_letter(#[trigger] a[k], b[k])),
    decreases i, j,
{
    lemma_distance_bounds(a, b, i, j);
    if i > 0 && j > 0 {
        lemma_zero(a, b, (i - 1) as nat, (j - 1) as nat);
        if i == j {
            if edit_distance(a, b, i, j) == 0 {
                assert(same_letter(a[i - 1], b[j - 1]));
            } else if forall|k: int| 0 <= k < i ==> same_letter(#[trigger] a[k], b[k]) {
                assert(same_letter(a[i - 1], b[j - 1]));
            }
        }
    }
}

/// Swapping two neighbours costs at most one edit.
pub proof fn transposition_is_one_edit(a: Seq<char>, k: int)
    requires
        0 <= k < a.len() - 1,
    ensures
        distance(a, a.update(k, a[k + 1]).update(k + 1, a[k])) <= 1,
{
    let b = a.update(k, a[k + 1]).update(k + 1, a[k]);
    lemma_zero(a, b, k as nat, k as nat);
    assert(edit_distance(a, b, (k + 2) as nat, (k + 2) as nat) <= 1);
    lemma_common_tail(a, b, (k + 2) as nat, a.len());
}

proof fn lemma_common_tail(a: Seq<char>, b: Seq<char>, from: nat, n: nat)
    requires
        from <= n <= a.len(),
        a.len() == b.len(),
        edit_distance(a, b, from, from) <= 1,
        forall|k: int| from <= k < n ==> #[trigger] a[k] == b[k],
    ensures
        edit_distance(a, b, n, n) <= 1,
    decreases n - from,
{
    if from < n {
        lemma_common_tail(a, b, from, (n - 1) as nat);
        assert(a[n - 1] == b[n - 1]);
    }
}

fn min_of(a: usize, b: usize) -> (r: usize)
    ensures
        r == least(a as nat, b as nat),
{
    if a <= b {
        a
    } else {
        b
    }
}

/// A row of the distance table: the distances of the first `i` characters of
/// `a` to the first 1, 2, ... characters of `b`.
spec fn is_row(row: Seq<usize>, a: Seq<char>, b: Seq<char>, i: nat) -> bool {
    row.len() == b.len() && forall|j: int|
        0 <= j < b.len() ==> #[trigger] row[j] == edit_distance(a, b, i, (j + 1) as nat)
}

/// A cell of the distance table, from the one above it, those to the left of
/// both, and the one two rows up and two columns to the left.
fn next_cell(
    a: &Vec<char>,
    b: &Vec<char>,
    i: usize,
    j: usize,
    above: usize,
    left: usize,
    corner: usize,
    far: usize,
) -> (r: usize)
    requires
        i < a@.len(),
        j < b@.len(),
        above == edit_distance(a@, b@, i as nat, (j + 1) as nat),
        left == edit_distance(a@, b@, (i + 1) as nat, j as nat),
        corner == edit_distance(a@, b@, i as nat, j as nat),
        i > 0 && j > 0 ==> far == edit_distance(a@, b@, (i - 1) as nat, (j - 1) as nat),
    ensures
        r == edit_distance(a@, b@, (i + 1) as nat, (j + 1) as nat),
{
    let (m, n): (usize, usize) = (a.len(), b.len());
    proof {
        lemma_distance_bounds(a@, b@, (i + 1) as nat, (j + 1) as nat);
        assert(most((i + 1) as nat, (j + 1) as nat) <= most(m as nat, n as nat));
    }
    let ca = char_ascii_lower(a[i]);
    let cb = char_ascii_lower(b[j]);
    let cost: usize = if ca == cb {
        0
    } else {
        1
    };
    let plain: usize = min_of(
        min_of(above.saturating_add(1), left.saturating_add(1)),
        corner.saturating_add(cost),
    );
    if i > 0 && j > 0 && ca == char_ascii_lower(b[j - 1]) && char_ascii_lower(a[i - 1]) == cb {
        min_of(plain, far.saturating_add(1))
    } else {
        plain
    }
}

/// Whether two texts are the same up to the case of ASCII letters.
pub fn eq_ignore_ascii_case(a: &str, b: &str) -> (r: bool)
    ensures
        r == same_ignoring_case(a@, b@),
{
    let av = chars_of(a);
    let bv = chars_of(b);
    if av.len() != bv.len() {
        return false;
    }
    let mut k: usize = 0;
    while k < av.len()
        invariant
            k <= av@.len(),
            av@ == a@,
            bv@ == b@,
            av@.len() == bv@.len(),
            forall|i: int| 0 <= i < k ==> same_letter(#[trigger] a@[i], b@[i]),
        decreases av.len() - k,
    {
        if char_ascii_lower(av[k]) != char_ascii_lower(bv[k]) {
            assert(!same_letter(a@[k as int], b@[k as int]));
            return false;
        }
        k += 1;
    }
    true
}

/// How a candidate ranks: by its distance, then the longer text, then the
/// alphabet.
#[derive(Debug)]
pub struct Ranked {
    pub dist: usize,
    pub longest: usize,
    pub text: String,
}

/// What a `Ranked` says.
pub struct RankedModel {
    pub dist: nat,
    pub longest: nat,
    pub text: Seq<char>,
}

impl View for Ranked {
    type V = RankedModel;

    open spec fn view(&self) -> RankedModel {
        RankedModel { dist: self.dist as nat, longest: self.longest as nat, text: self.text@ }
    }
}

/// Whether one candidate ranks before another. At the same distance the longer
/// pair of texts is the more similar one.
pub open spec fn ranks_before(a: RankedModel, b: RankedModel) -> bool {
    a.dist < b.dist || (a.dist == b.dist && (a.longest > b.longest || (a.longest == b.longest
        && text_lt(a.text, b.text))))
}

fn ranked_less(a: &Ranked, b: &Ranked) -> (r: bool)
    ensures
        r == ranks_before(a@, b@),
{
    if a.dist != b.dist {
        return a.dist < b.dist;
    }
    if a.longest != b.longest {
        return b.longest < a.longest;
    }
    str_lt(a.text.as_str(), b.text.as_str())
}

/// The rank of a candidate for a query.
pub open spec fn rank_of(query: Seq<char>, candidate: Seq<char>) -> RankedModel {
    RankedModel {
        dist: distance(query, candidate),
        longest: most(query.len(), candidate.len()),
        text: candidate,
    }
}

/// The texts of ranked candidates of which no two are the same in lower case,
/// the better rank counting, three at most.
pub open spec fn best_three(ranked: Seq<RankedModel>) -> Seq<Seq<char>>
    decreases ranked.len(),
{
    if ranked.len() == 0 {
        Seq::empty()
    } else {
        let before = best_three(ranked.drop_last());
        let text = ranked.last().text;
        if before.len() >= 3 || (exists|k: int|
            0 <= k < before.len() && lowercase(#[trigger] before[k]) == lowercase(text)) {
            before
        } else {
            before.push(text)
        }
    }
}

/// Suggests corrections by the Damerau-Levenshtein distance.
#[derive(Debug, Clone, Copy)]
pub struct TypoCorrectionEngine {
    pub max_edit_distance: usize,
    /// How similar a suggestion must be, in thousandths.
    pub min_similarity_permille: u32,
}

impl Default for TypoCorrectionEngine {
    fn default() -> (r: Self)
        ensures
            r.max_edit_distance == 3,
            r.min_similarity_permille == 600,
    {
        TypoCorrectionEngine { max_edit_distance: 3, min_similarity_permille: 600 }
    }
}

impl TypoCorrectionEngine {
    /// An engine with these limits.
    pub fn new(max_edit_distance: usize, min_similarity_permille: u32) -> (r: Self)
        ensures
            r.max_edit_distance == max_edit_distance,
            r.min_similarity_permille == min_similarity_permille,
    {
        TypoCorrectionEngine { max_edit_distance, min_similarity_permille }
    }

    /// The largest distance allowed for a query of this length.
    pub open spec fn allowed_distance(&self, query_len: nat) -> nat {
        if query_len <= 3 {
            1
        } else if query_len <= 7 {
            least(2, self.max_edit_distance as nat)
        } else {
            self.max_edit_distance as nat
        }
    }

    /// Whether a candidate is close enough to be suggested. The similarity of
    /// two texts is 1 less their distance over the longer length.
    pub open spec fn accepts(&self, query: Seq<char>, candidate: Seq<char>) -> bool {
        let d = distance(query, candidate);
        let longest = most(query.len(), candidate.len());
        &&& candidate.len() > 0
        &&& !same_ignoring_case(candidate, query)
        &&& d <= self.allowed_distance(query.len())
        &&& 1000 * (longest - d) >= self.min_similarity_permille * longest
    }

    /// The ranks of the candidates that are close enough, in the order of the
    /// candidates.
    pub open spec fn accepted(&self, query: Seq<char>, candidates: Seq<Seq<char>>) -> Seq<
        RankedModel,
    >
        decreases candidates.len(),
    {
        if candidates.len() == 0 {
            Seq::empty()
        } else {
            let before = self.accepted(query, candidates.drop_last());
            if self.accepts(query, candidates.last()) {
                before.push(rank_of(query, candidates.last()))
            } else {
                before
            }
        }
    }

    /// The suggestions for a query: the best three of the candidates that are
    /// close enough.
    pub open spec fn suggestions(&self, query: Seq<char>, candidates: Seq<Seq<char>>) -> Seq<
        Seq<char>,
    > {
        if query.len() == 0 {
            Seq::empty()
        } else {
            best_three(
                sorted_by(
                    self.accepted(query, candidates),
                    |a: RankedModel, b: RankedModel| ranks_before(a, b),
                ),
            )
        }
    }

    /// The distance between two texts.
    pub fn damerau_levenshtein(a: &str, b: &str) -> (r: usize)
        ensures
            r == distance(a@, b@),
    {
        let av = chars_of(a);
        let bv = chars_of(b);
        let m: usize = av.len();
        let n: usize = bv.len();
        if m == 0 {
            return n;
        }
        if n == 0 {
            return m;
        }
        let mut older: Vec<usize> = Vec::new();
        let mut old: Vec<usize> = Vec::new();
        let mut j: usize = 0;
        while j < n
            invariant
                j <= n,
                n == b@.len(),
                old@.len() == j,
                forall|k: int|
                    0 <= k < j ==> #[trigger] old@[k] == edit_distance(
                        a@,
                        b@,
                        0,
                        (k + 1) as nat,
                    ),
            decreases n - j,
        {
            old.push(j + 1);
            j += 1;
        }
        let mut i: usize = 0;
        while i < m
            invariant
                i <= m,
                m == av@.len(),
                av@ == a@,
                bv@ == b@,
                n == b@.len(),
                n > 0,
                is_row(old@, a@, b@, i as nat),
                i > 0 ==> is_row(older@, a@, b@, (i - 1) as nat),
            decreases m - i,
        {
            let mut row: Vec<usize> = Vec::new();
            let mut j: usize = 0;
            while j < n
                invariant
                    j <= n,
                    i < m,
                    m == av@.len(),
                    av@ == a@,
                    bv@ == b@,
                    n == b@.len(),
                    is_row(old@, a@, b@, i as nat),
                    i > 0 ==> is_row(older@, a@, b@, (i - 1) as nat),
                    row@.len() == j,
                    forall|k: int|
                        0 <= k < j ==> #[trigger] row@[k] == edit_distance(
                            a@,
                            b@,
                            (i + 1) as nat,
                            (k + 1) as nat,
                        ),
                decreases n - j,
            {
                let left: usize = if j == 0 {
                    i + 1
                } else {
                    row[j - 1]
                };
                let corner: usize = if j == 0 {
                    i
                } else {
                    old[j - 1]
                };
                let far: usize = if i == 0 || j == 0 {
                    0
                } else if j == 1 {
                    i - 1
                } else {
                    older[j - 2]
                };
                let best: usize = next_cell(&av, &bv, i, j, old[j], left, corner, far);
                row.push(best);
                j += 1;
            }
            older = old;
            old = row;
            i += 1;
        }
        old[n - 1]
    }

    fn rank(&self, query: &str, candidate: &str) -> (r: Option<Ranked>)
        ensures
            match r {
                Some(k) => self.accepts(query@, candidate@) && k@ == rank_of(query@, candidate@),
                None => !self.accepts(query@, candidate@),
            },
    {
        if candidate.is_empty() || eq_ignore_ascii_case(candidate, query) {
            return None;
        }
        let q: usize = query.unicode_len();
        let c: usize = candidate.unicode_len();
        let allowed: usize = if q <= 3 {
            1
        } else if q <= 7 {
            min_of(2, self.max_edit_distance)
        } else {
            self.max_edit_distance
        };
        let apart: usize = if q >= c {
            q - c
        } else {
            c - q
        };
        proof {
            lemma_distance_bounds(query@, candidate@, query@.len(), candidate@.len());
        }
        if apart > allowed {
            return None;
        }
        let dist: usize = TypoCorrectionEngine::damerau_levenshtein(query, candidate);
        let longest: usize = if q >= c {
            q
        } else {
            c
        };
        let share: u128 = 1000 * ((longest - dist) as u128);
        assert((self.min_similarity_permille as u128) * (longest as u128) <= 0xffff_ffff
            * 0xffff_ffff_ffff_ffff) by (nonlinear_arith)
            requires
                self.min_similarity_permille <= 0xffff_ffff,
                longest <= 0xffff_ffff_ffff_ffff,
        ;
        let needed: u128 = (self.min_similarity_permille as u128) * (longest as u128);
        if dist <= allowed && share >= needed {
            Some(Ranked { dist, longest, text: candidate.to_owned() })
        } else {
            None
        }
    }

    /// Suggests corrections for a query.
    pub fn suggest(&self, query: &str, candidates: &Vec<String>) -> (r: Vec<String>)
        ensures
            views(r@) == self.suggestions(query@, views(candidates@)),
    {
        broadcast use group_views;

        if query.is_empty() {
            return Vec::new();
        }
        let ghost all = views(candidates@);
        let mut found: Vec<Ranked> = Vec::new();
        let mut i: usize = 0;
        while i < candidates.len()
            invariant
                i <= candidates@.len(),
                all == views(candidates@),
                views(found@) == self.accepted(query@, all.take(i as int)),
            decreases candidates.len() - i,
        {
            assert(all.take(i as int + 1).drop_last() =~= all.take(i as int));
            if let Some(k) = self.rank(query, candidates[i].as_str()) {
                found.push(k);
            }
            i += 1;
        }
        assert(all.take(i as int) =~= all);
        let ghost lt = |a: Ranked, b: Ranked| ranks_before(a@, b@);
        let ghost lt_view = |a: RankedModel, b: RankedModel| ranks_before(a, b);
        proof {
            lemma_sorted_views(found@, lt, lt_view);
        }
        let sorted = sort_by(found, ranked_less, Ghost(lt));
        let ghost ranked = views(sorted@);
        let mut out: Vec<String> = Vec::new();
        let mut k: usize = 0;
        while k < sorted.len()
            invariant
                k <= sorted@.len(),
                ranked == views(sorted@),
                views(out@) == best_three(ranked.take(k as int)),
            decreases sorted.len() - k,
        {
            assert(ranked.take(k as int + 1).drop_last() =~= ranked.take(k as int));
            if out.len() <= 2 && !known(&out, sorted[k].text.as_str()) {
                out.push(sorted[k].text.clone());
            }
            k += 1;
        }
        assert(ranked.take(k as int) =~= ranked);
        out
    }
}

fn known(v: &Vec<String>, s: &str) -> (r: bool)
    ensures
        r == exists|k: int|
            0 <= k < v@.len() && lowercase(#[trigger] views(v@)[k]) == lowercase(s@),
{
    let low = to_lowercase(s);
    let mut i: usize = 0;
    while i < v.len()
        invariant
            i <= v@.len(),
            low@ == lowercase(s@),
            forall|j: int| 0 <= j < i ==> lowercase(#[trigger] views(v@)[j]) != lowercase(s@),
        decreases v.len() - i,
    {
        assert(views(v@)[i as int] == v@[i as int]@);
        let other = to_lowercase(v[i].as_str());
        if same(other.as_str(), low.as_str()) {
            return true;
        }
        i += 1;
    }
    false
}

/// At most three corrections are suggested, each of them a candidate that is
/// close enough, and no two the same in lower case.
pub proof fn suggestions_are_few_and_close(
    engine: TypoCorrectionEngine,
    query: Seq<char>,
    candidates: Seq<Seq<char>>,
)
    ensures
        engine.suggestions(query, candidates).len() <= 3,
        forall|k: int|
            0 <= k < engine.suggestions(query, candidates).len() ==> {
                &&& candidates.contains(#[trigger] engine.suggestions(query, candidates)[k])
                &&& engine.accepts(query, engine.suggestions(query, candidates)[k])
            },
        forall|i: int, j: int|
            0 <= i < j < engine.suggestions(query, candidates).len() ==> lowercase(
                #[trigger] engine.suggestions(query, candidates)[i],
            ) != lowercase(#[trigger] engine.suggestions(query, candidates)[j]),
{
    let accepted = engine.accepted(query, candidates);
    let lt = |a: RankedModel, b: RankedModel| ranks_before(a, b);
    let sorted = sorted_by(accepted, lt);
    lemma_best_three(sorted);
    crate::sorting::lemma_sorted_members(accepted, lt);
    lemma_accepted(engine, query, candidates);
    if query.len() > 0 {
        assert forall|k: int| 0 <= k < best_three(sorted).len() implies {
            &&& candidates.contains(#[trigger] best_three(sorted)[k])
            &&& engine.accepts(query, best_three(sorted)[k])
        } by {
            let text = best_three(sorted)[k];
            let p = choose|p: int| 0 <= p < sorted.len() && (#[trigger] sorted[p]).text == text;
            assert(accepted.contains(sorted[p]));
        }
    }
}

proof fn lemma_best_three(ranked: Seq<RankedModel>)
    ensures
        best_three(ranked).len() <= 3,
        forall|k: int|
            0 <= k < best_three(ranked).len() ==> exists|p: int|
                0 <= p < ranked.len() && (#[trigger] ranked[p]).text
                    == #[trigger] best_three(ranked)[k],
        forall|i: int, j: int|
            0 <= i < j < best_three(ranked).len() ==> lowercase(#[trigger] best_three(ranked)[i])
                != lowercase(#[trigger] best_three(ranked)[j]),
    decreases ranked.len(),
{
    if ranked.len() > 0 {
        let rest = ranked.drop_last();
        lemma_best_three(rest);
        assert forall|k: int| 0 <= k < best_three(ranked).len() implies exists|p: int|
            0 <= p < ranked.len() && (#[trigger] ranked[p]).text
                == #[trigger] best_three(ranked)[k] by {
            if k < best_three(rest).len() {
                let p = choose|p: int|
                    0 <= p < rest.len() && (#[trigger] rest[p]).text == best_three(rest)[k];
                assert(ranked[p].text == best_three(ranked)[k]);
            } else {
                assert(ranked[ranked.len() - 1].text == best_three(ranked)[k]);
            }
        }
    }
}

proof fn lemma_accepted(
    engine: TypoCorrectionEngine,
    query: Seq<char>,
    candidates: Seq<Seq<char>>,
)
    ensures
        forall|r: RankedModel| #[trigger]
            engine.accepted(query, candidates).contains(r) ==> candidates.contains(r.text)
                && engine.accepts(query, r.text) && r == rank_of(query, r.text),
    decreases candidates.len(),
{
    if candidates.len() > 0 {
        let rest = candidates.drop_last();
        lemma_accepted(engine, query, rest);
        assert forall|r: RankedModel| #[trigger]
            engine.accepted(query, candidates).contains(r) implies candidates.contains(r.text)
            && engine.accepts(query, r.text) && r == rank_of(query, r.text) by {
            if engine.accepted(query, rest).contains(r) {
                let p = choose|p: int| 0 <= p < rest.len() && rest[p] == r.text;
                assert(candidates[p] == r.text);
            } else {
                let p = choose|p: int|
                    0 <= p < engine.accepted(query, candidates).len() && engine.accepted(
                        query,
                        candidates,
                    )[p] == r;
                if p < engine.accepted(query, rest).len() {
                    assert(engine.accepted(query, rest)[p] == r);
                }
                assert(candidates[candidates.len() - 1] == r.text);
            }
        }
    }
}

/// Putting a character in, taking one out or replacing one costs at most one edit.
pub proof fn one_change_is_one_edit(a: Seq<char>, k: int, c: char)
    requires
        0 <= k <= a.len(),
    ensures
        distance(a, a.insert(k, c)) == 1,
        distance(a.insert(k, c), a) == 1,
        k < a.len() ==> distance(a, a.update(k, c)) <= 1,
        k < a.len() && !same_letter(a[k], c) ==> distance(a, a.update(k, c)) == 1,
{
    let b = a.insert(k, c);
    lemma_zero(a, b, k as nat, k as nat);
    lemma_distance_bounds(a, b, k as nat, (k + 1) as nat);
    assert(edit_distance(a, b, k as nat, (k + 1) as nat) == 1) by {
        if k > 0 {
            assert(edit_distance(a, b, k as nat, k as nat) == 0);
        }
    }
    lemma_shifted_tail(a, b, k as nat, a.len());
    lemma_distance_bounds(a, b, a.len(), b.len());
    distance_symmetric(a, b);
    if k < a.len() {
        let d = a.update(k, c);
        lemma_zero(a, d, k as nat, k as nat);
        assert(edit_distance(a, d, (k + 1) as nat, (k + 1) as nat) <= 1);
        lemma_common_tail(a, d, (k + 1) as nat, a.len());
        distance_zero(a, d);
        if !same_letter(a[k], c) {
            assert(!same_letter(a[k], d[k]));
        }
    }
}

proof fn lemma_shifted_tail(a: Seq<char>, b: Seq<char>, from: nat, n: nat)
    requires
        from <= n <= a.len(),
        a.len() + 1 == b.len(),
        edit_distance(a, b, from, from + 1) <= 1,
        forall|k: int| from <= k < n ==> #[trigger] a[k] == b[k + 1],
    ensures
        edit_distance(a, b, n, n + 1) <= 1,
    decreases n - from,
{
    if from < n {
        lemma_shifted_tail(a, b, from, (n - 1) as nat);
        assert(a[n - 1] == b[n as int]);
    }
}

/// One character more at the end of one text changes the distance by at most one.
pub proof fn one_more_character_costs_at_most_one(a: Seq<char>, b: Seq<char>, c: char)
    ensures
        distance(a, b.push(c)) <= distance(a, b) + 1,
        distance(a, b) <= distance(a, b.push(c)) + 1,
{
    lemma_same_front(a, a, b, b.push(c), a.len(), b.len());
    lemma_last_column(a, b.push(c), a.len(), b.len());
}

proof fn lemma_same_front(
    a: Seq<char>,
    a2: Seq<char>,
    b: Seq<char>,
    b2: Seq<char>,
    i: nat,
    j: nat,
)
    requires
        i <= a.len(),
        i <= a2.len(),
        j <= b.len(),
        j <= b2.len(),
        forall|k: int| 0 <= k < i ==> #[trigger] a[k] == a2[k],
        forall|k: int| 0 <= k < j ==> #[trigger] b[k] == b2[k],
    ensures
        edit_distance(a, b, i, j) == edit_distance(a2, b2, i, j),
    decreases i, j,
{
    if i > 0 && j > 0 {
        lemma_same_front(a, a2, b, b2, (i - 1) as nat, j);
        lemma_same_front(a, a2, b, b2, i, (j - 1) as nat);
        lemma_same_front(a, a2, b, b2, (i - 1) as nat, (j - 1) as nat);
        assert(a[i - 1] == a2[i - 1]);
        assert(b[j - 1] == b2[j - 1]);
        if i > 1 && j > 1 {
            lemma_same_front(a, a2, b, b2, (i - 2) as nat, (j - 2) as nat);
            assert(a[i - 2] == a2[i - 2]);
            assert(b[j - 2] == b2[j - 2]);
        }
    }
}

proof fn lemma_last_column(a: Seq<char>, b: Seq<char>, i: nat, j: nat)
    ensures
        edit_distance(a, b, i, j + 1) <= edit_distance(a, b, i, j) + 1,
        edit_distance(a, b, i, j) <= edit_distance(a, b, i, j + 1) + 1,
    decreases i, j,
{
    if i > 0 {
        lemma_last_column(a, b, (i - 1) as nat, j);
        if j > 0 {
            lemma_last_column(a, b, i, (j - 1) as nat);
            lemma_last_column(a, b, (i - 1) as nat, (j - 1) as nat);
            lemma_last_row(a, b, (i - 1) as nat, j);
            if i > 1 {
                lemma_last_column(a, b, (i - 2) as nat, (j - 1) as nat);
                lemma_last_row(a, b, (i - 2) as nat, (j - 1) as nat);
                lemma_last_row(a, b, (i - 1) as nat, (j - 1) as nat);
            }
        }
    }
}

proof fn lemma_last_row(a: Seq<char>, b: Seq<char>, i: nat, j: nat)
    ensures
        edit_distance(a, b, i + 1, j) <= edit_distance(a, b, i, j) + 1,
    decreases i, j,
{
    if j > 0 {
    }
}

/// Whether a candidate may be suggested for a query. It is not empty and not the query
/// itself up to case. For a query of up to three characters it is one edit away at most,
/// for one of up to seven two, or the engine's limit where that is less, for a longer
/// one the engine's limit. The part of the longer text that is not edited is at least
/// as large as the engine asks.
pub open spec fn may_suggest(
    engine: TypoCorrectionEngine,
    query: Seq<char>,
    candidate: Seq<char>,
) -> bool {
    let d = distance(query, candidate);
    let longest = if query.len() >= candidate.len() {
        query.len()
    } else {
        candidate.len()
    };
    &&& query.len() > 0
    &&& candidate.len() > 0
    &&& d > 0
    &&& query.len() <= 3 ==> d <= 1
    &&& 3 < query.len() <= 7 ==> d <= 2
    &&& 3 < query.len() ==> d <= engine.max_edit_distance
    &&& 1000 * (longest - d) >= engine.min_similarity_permille * longest
}

/// Whether a text stands before another among suggestions: it is nearer to the query,
/// or as near and the longer one, or as long too and first in the alphabet.
pub open spec fn suggested_before(query: Seq<char>, a: Seq<char>, b: Seq<char>) -> bool {
    let (da, db) = (distance(query, a), distance(query, b));
    let la = if query.len() >= a.len() {
        query.len()
    } else {
        a.len()
    };
    let lb = if query.len() >= b.len() {
        query.len()
    } else {
        b.len()
    };
    da < db || (da == db && la > lb) || (da == db && la == lb && text_lt(a, b))
}

proof fn lemma_ranks_before_is_weak_order()
    ensures
        is_weak_order(|a: RankedModel, b: RankedModel| ranks_before(a, b)),
{
    let lt = |a: RankedModel, b: RankedModel| ranks_before(a, b);
    assert forall|a: RankedModel| !#[trigger] lt(a, a) by {
        texts_are_ordered(a.text, a.text, a.text);
    }
    assert forall|a: RankedModel, b: RankedModel, c: RankedModel| #[trigger]
        lt(a, b) && #[trigger] lt(b, c) implies lt(a, c) by {
        texts_are_ordered(a.text, b.text, c.text);
    }
    assert forall|a: RankedModel, b: RankedModel, c: RankedModel|
        !#[trigger] lt(a, b) && !#[trigger] lt(b, c) implies !lt(a, c) by {
        texts_are_ordered(a.text, b.text, c.text);
        texts_are_ordered(c.text, b.text, a.text);
        texts_are_ordered(a.text, c.text, b.text);
        texts_are_ordered(b.text, c.text, a.text);
    }
}

proof fn lemma_best_three_in_order(query: Seq<char>, ranked: Seq<RankedModel>)
    requires
        in_order(ranked, |a: RankedModel, b: RankedModel| ranks_before(a, b)),
        forall|p: int|
            0 <= p < ranked.len() ==> #[trigger] ranked[p] == rank_of(query, ranked[p].text),
    ensures
        forall|i: int, j: int|
            0 <= i < j < best_three(ranked).len() ==> !suggested_before(
                query,
                #[trigger] best_three(ranked)[j],
                #[trigger] best_three(ranked)[i],
            ),
        forall|p: int|
            0 <= p < ranked.len() ==> is_served(query, best_three(ranked), #[trigger] ranked[p].text),
    decreases ranked.len(),
{
    let lt = |a: RankedModel, b: RankedModel| ranks_before(a, b);
    if ranked.len() > 0 {
        let rest = ranked.drop_last();
        let before = best_three(rest);
        let r = best_three(ranked);
        let text = ranked.last().text;
        assert forall|i: int, j: int| 0 <= i < j < rest.len() implies !lt(
            #[trigger] rest[j],
            #[trigger] rest[i],
        ) by {
            assert(rest[i] == ranked[i] && rest[j] == ranked[j]);
        }
        assert forall|p: int| 0 <= p < rest.len() implies #[trigger] rest[p] == rank_of(
            query,
            rest[p].text,
        ) by {
            assert(rest[p] == ranked[p]);
        }
        lemma_best_three_in_order(query, rest);
        lemma_best_three(rest);
        assert(ranked[ranked.len() - 1] == ranked.last());
        assert forall|i: int| 0 <= i < before.len() implies !suggested_before(
            query,
            text,
            #[trigger] before[i],
        ) by {
            let p = choose|p: int| 0 <= p < rest.len() && (#[trigger] rest[p]).text == before[i];
            assert(rest[p] == ranked[p]);
            assert(!lt(ranked[ranked.len() - 1], ranked[p]));
            assert(ranked[p] == rank_of(query, ranked[p].text));
            assert(ranked[ranked.len() - 1] == rank_of(query, text));
        }
        assert forall|i: int, j: int| 0 <= i < j < r.len() implies !suggested_before(
            query,
            #[trigger] r[j],
            #[trigger] r[i],
        ) by {
            assert(r[i] == before[i]);
            if j < before.len() {
                assert(r[j] == before[j]);
            }
        }
        assert forall|p: int| 0 <= p < ranked.len() implies is_served(
            query,
            r,
            #[trigger] ranked[p].text,
        ) by {
            if p < rest.len() {
                assert(rest[p] == ranked[p]);
                assert(is_served(query, before, rest[p].text));
                if r.len() > before.len() {
                    let k = choose|k: int|
                        0 <= k < before.len() && lowercase(#[trigger] before[k]) == lowercase(
                            rest[p].text,
                        ) && !suggested_before(query, rest[p].text, before[k]);
                    assert(r[k] == before[k]);
                }
            } else if r.len() > before.len() {
                assert(r[before.len() as int] == text);
                texts_are_ordered(text, text, text);
            } else if before.len() < 3 {
                let k = choose|k: int|
                    0 <= k < before.len() && lowercase(#[trigger] before[k]) == lowercase(text);
                assert(r[k] == before[k]);
            }
        }
    }
}

/// Whether a text is suggested, as itself or as one that is the same in lower case and
/// stands no farther behind; or else three are suggested that stand no farther behind.
pub open spec fn is_served(query: Seq<char>, suggested: Seq<Seq<char>>, text: Seq<char>) -> bool {
    ||| exists|k: int|
        0 <= k < suggested.len() && lowercase(#[trigger] suggested[k]) == lowercase(text)
            && !suggested_before(query, text, suggested[k])
    ||| suggested.len() == 3 && forall|k: int|
        0 <= k < suggested.len() ==> !suggested_before(query, text, #[trigger] suggested[k])
}

/// The suggestions are the best there are: they come nearest first, each of them may be
/// suggested, and a candidate that may be suggested is, unless one that is the same in
/// lower case is, or three that are no worse.
pub proof fn best_suggestions_come_first(
    engine: TypoCorrectionEngine,
    query: Seq<char>,
    candidates: Seq<Seq<char>>,
)
    ensures
        forall|i: int, j: int|
            0 <= i < j < engine.suggestions(query, candidates).len() ==> !suggested_before(
                query,
                #[trigger] engine.suggestions(query, candidates)[j],
                #[trigger] engine.suggestions(query, candidates)[i],
            ),
        forall|k: int|
            0 <= k < engine.suggestions(query, candidates).len() ==> may_suggest(
                engine,
                query,
                #[trigger] engine.suggestions(query, candidates)[k],
            ),
        forall|c: int|
            0 <= c < candidates.len() && may_suggest(engine, query, #[trigger] candidates[c])
                ==> is_served(query, engine.suggestions(query, candidates), candidates[c]),
{
    let lt = |a: RankedModel, b: RankedModel| ranks_before(a, b);
    let accepted = engine.accepted(query, candidates);
    let sorted = sorted_by(accepted, lt);
    let r = engine.suggestions(query, candidates);
    suggestions_are_few_and_close(engine, query, candidates);
    if query.len() > 0 {
        lemma_ranks_before_is_weak_order();
        crate::sorting::sorted_is_in_order(accepted, lt);
        crate::sorting::lemma_sorted_members(accepted, lt);
        lemma_accepted(engine, query, candidates);
        lemma_all_accepted(engine, query, candidates);
        assert forall|p: int| 0 <= p < sorted.len() implies #[trigger] sorted[p] == rank_of(
            query,
            sorted[p].text,
        ) by {
            assert(accepted.contains(sorted[p]));
        }
        lemma_best_three_in_order(query, sorted);
        assert forall|c: int|
            0 <= c < candidates.len() && may_suggest(engine, query, #[trigger] candidates[c]) implies is_served(
            query,
            r,
            candidates[c],
        ) by {
            distance_zero(query, candidates[c]);
            lemma_same_either_way(candidates[c], query);
            assert(engine.accepts(query, candidates[c]));
            assert(accepted.contains(rank_of(query, candidates[c])));
            let q = choose|q: int|
                0 <= q < accepted.len() && accepted[q] == rank_of(query, candidates[c]);
            assert(sorted.contains(accepted[q]));
            let p = choose|p: int| 0 <= p < sorted.len() && sorted[p] == accepted[q];
            assert(is_served(query, r, sorted[p].text));
        }
    }
    assert forall|k: int| 0 <= k < r.len() implies may_suggest(engine, query, #[trigger] r[k]) by {
        assert(engine.accepts(query, r[k]));
        distance_zero(query, r[k]);
        lemma_same_either_way(r[k], query);
    }
}

proof fn lemma_same_either_way(a: Seq<char>, b: Seq<char>)
    ensures
        same_ignoring_case(a, b) == same_ignoring_case(b, a),
{
    if same_ignoring_case(a, b) {
        assert forall|k: int| 0 <= k < b.len() implies same_letter(#[trigger] b[k], a[k]) by {
            assert(same_letter(a[k], b[k]));
        }
    }
    if same_ignoring_case(b, a) {
        assert forall|k: int| 0 <= k < a.len() implies same_letter(#[trigger] a[k], b[k]) by {
            assert(same_letter(b[k], a[k]));
        }
    }
}

proof fn lemma_all_accepted(
    engine: TypoCorrectionEngine,
    query: Seq<char>,
    candidates: Seq<Seq<char>>,
)
    ensures
        forall|c: int|
            0 <= c < candidates.len() && engine.accepts(query, #[trigger] candidates[c])
                ==> engine.accepted(query, candidates).contains(rank_of(query, candidates[c])),
    decreases candidates.len(),
{
    if candidates.len() > 0 {
        let rest = candidates.drop_last();
        let before = engine.accepted(query, rest);
        let r = engine.accepted(query, candidates);
        lemma_all_accepted(engine, query, rest);
        assert forall|c: int|
            0 <= c < candidates.len() && engine.accepts(query, #[trigger] candidates[c]) implies r.contains(
            rank_of(query, candidates[c]),
        ) by {
            if c < rest.len() {
                assert(rest[c] == candidates[c]);
                assert(before.contains(rank_of(query, rest[c])));
                let k = choose|k: int| 0 <= k < before.len() && before[k] == rank_of(query, rest[c]);
                assert(r[k] == before[k]);
            } else {
                assert(r[r.len() - 1] == rank_of(query, candidates[c]));
            }
        }
    }
}

} // verus!
