//! The hits of both searches in one list, best first.

use crate::retrieval::{
    fused_score, is_fused_score, Candidate, CandidateModel, Fraction, HybridWeights, PkbReranker,
    RrfConfig,
};
use crate::sorting::{
    first_sorted_are_the_least, in_order, is_weak_order, sort_by, sorted_by, sorted_differ,
    sorted_is_in_order,
};
use crate::text::views;
use crate::trails::first_of;
use crate::wide::{is_huge_less, lemma_wide_of, product, scaled, wide_of, Wide};
use vstd::prelude::*;

verus! {

// ---------------------------------------------------------------------------
// Comparing scores
// ---------------------------------------------------------------------------

/// A score: a fraction with a large numerator.
#[derive(Debug, Clone, Copy, PartialEq, Eq, Structural)]
pub struct Score {
    pub num: Wide,
    pub den: u128,
}

/// The denominator; a score without one is a whole number.
pub open spec fn below(s: Score) -> int {
    if s.den == 0 {
        1
    } else {
        s.den as int
    }
}

/// Whether the first score is larger than the second.
pub open spec fn higher(a: Score, b: Score) -> bool {
    a.num.value() * below(b) > b.num.value() * below(a)
}

/// Whether the first score is larger than the second.
pub fn is_higher(a: &Score, b: &Score) -> (r: bool)
    ensures
        r == higher(*a, *b),
{
    let x: u128 = if a.den == 0 {
        1
    } else {
        a.den
    };
    let y: u128 = if b.den == 0 {
        1
    } else {
        b.den
    };
    let left = scaled(a.num, y);
    let right = scaled(b.num, x);
    is_huge_less(&right, &left)
}

proof fn lemma_chain(a: int, b: int, c: int, d: int, e: int, f: int)
    requires
        b > 0,
        d > 0,
        f > 0,
    ensures
        a * d > c * b && c * f > e * d ==> a * f > e * b,
        a * d <= c * b && c * f <= e * d ==> a * f <= e * b,
{
    let l = a * f;
    let r = e * b;
    assert((a * d) * f == d * l && (c * b) * f == (c * f) * b && (e * d) * b == d * r)
        by (nonlinear_arith)
        requires
            l == a * f,
            r == e * b,
    ;
    if a * d > c * b && c * f > e * d {
        assert((a * d) * f > (c * b) * f) by (nonlinear_arith)
            requires
                a * d > c * b,
                f > 0,
        ;
        assert((c * f) * b > (e * d) * b) by (nonlinear_arith)
            requires
                c * f > e * d,
                b > 0,
        ;
        assert(l > r) by (nonlinear_arith)
            requires
                d * l > d * r,
                d > 0,
        ;
    }
    if a * d <= c * b && c * f <= e * d {
        assert((a * d) * f <= (c * b) * f) by (nonlinear_arith)
            requires
                a * d <= c * b,
                f > 0,
        ;
        assert((c * f) * b <= (e * d) * b) by (nonlinear_arith)
            requires
                c * f <= e * d,
                b > 0,
        ;
        assert(l <= r) by (nonlinear_arith)
            requires
                d * l <= d * r,
                d > 0,
        ;
    }
}

// ---------------------------------------------------------------------------
// Ranking
// ---------------------------------------------------------------------------

/// A rank as far as it fits into 32 bits.
pub open spec fn short_rank(rank: Option<usize>) -> Option<u32> {
    match rank {
        Some(n) => Some(n as u32),
        None => None,
    }
}

/// Whether the ranks of a candidate count from 1 and fit into 32 bits.
pub open spec fn ranks_fit(c: CandidateModel) -> bool {
    &&& c.bm25_rank matches Some(n) ==> 1 <= n <= u32::MAX
    &&& c.vector_rank matches Some(n) ==> 1 <= n <= u32::MAX
}

/// What a candidate's note says of it: its title, the headings above the candidate, the
/// note's tags and how central the note is, in millionths.
#[derive(Debug)]
pub struct HitContext {
    pub title: String,
    pub breadcrumbs: String,
    pub tags: Vec<String>,
    pub pagerank: u32,
}

/// What a `HitContext` says.
pub struct HitModel {
    pub title: Seq<char>,
    pub breadcrumbs: Seq<char>,
    pub tags: Seq<Seq<char>>,
    pub pagerank: u32,
}

impl View for HitContext {
    type V = HitModel;

    open spec fn view(&self) -> HitModel {
        HitModel {
            title: self.title@,
            breadcrumbs: self.breadcrumbs@,
            tags: views(self.tags@),
            pagerank: self.pagerank,
        }
    }
}

/// What a search asks: the query, how much each search counts, and what lifts a hit.
pub struct Scoring<'a> {
    pub query: &'a str,
    pub weights: HybridWeights,
    pub config: RrfConfig,
    pub reranker: PkbReranker,
}

/// The denominator of a rank: the constant plus the rank, or one.
pub open spec fn rank_den(k: u32, rank: Option<u32>) -> int {
    match rank {
        Some(r) => k + r,
        None => 1,
    }
}

/// A weight, where the search has found the candidate.
pub open spec fn rank_weight(percent: u32, rank: Option<u32>) -> int {
    match rank {
        Some(_) => percent as int,
        None => 0,
    }
}

impl Scoring<'_> {
    /// The score of a candidate, in units of 10^-36: its fused ranks times its boost by
    /// title, headings, tags and centrality.
    pub open spec fn score(&self, c: CandidateModel, hit: HitModel) -> (int, int) {
        let bm25 = short_rank(c.bm25_rank);
        let vector = short_rank(c.vector_rank);
        let a = rank_den(self.config.k, bm25);
        let b = rank_den(self.config.k, vector);
        let fused = rank_weight(self.weights.bm25_weight, bm25) * b + rank_weight(
            self.weights.vector_weight,
            vector,
        ) * a;
        let boost = self.reranker.boost(
            self.query@,
            hit.title,
            hit.breadcrumbs,
            hit.tags,
            hit.pagerank,
        );
        (fused * boost, a * b)
    }

    /// The scores of candidates by their places, given what their notes say of them.
    pub open spec fn scores(
        &self,
        candidates: Seq<CandidateModel>,
        hits: Seq<HitModel>,
    ) -> Seq<(usize, Score)> {
        Seq::new(
            candidates.len(),
            |i: int|
                {
                    let s = self.score(candidates[i], hits[i]);
                    (i as usize, Score { num: wide_of(s.0 as nat), den: s.1 as u128 })
                },
        )
    }

    /// The score of one candidate.
    pub fn compute_score(&self, c: &Candidate, hit: &HitContext) -> (r: Score)
        requires
            ranks_fit(c@),
        ensures
            (r.num.value() as int, r.den as int) == self.score(c@, hit@),
            r.den > 0,
    {
        let bm25: Option<u32> = match c.bm25_rank {
            Some(n) => Some(n as u32),
            None => None,
        };
        let vector: Option<u32> = match c.vector_rank {
            Some(n) => Some(n as u32),
            None => None,
        };
        let fused = fused_score(self.weights, self.config, bm25, vector);
        let boost: u128 = self.reranker.compute_boost(
            self.query,
            hit.title.as_str(),
            hit.breadcrumbs.as_str(),
            &hit.tags,
            hit.pagerank,
        );
        Score { num: product(fused.num, boost), den: fused.den }
    }

    /// The places of the best candidates with their scores, best first; equal ones in
    /// the order given.
    pub fn rank_candidates(
        &self,
        candidates: &Vec<Candidate>,
        hits: &Vec<HitContext>,
        limit: usize,
    ) -> (r: Vec<(usize, Score)>)
        requires
            candidates@.len() == hits@.len(),
            forall|i: int| 0 <= i < candidates@.len() ==> ranks_fit((#[trigger] candidates@[i])@),
        ensures
            r@ == first_of(
                sorted_by(self.scores(views(candidates@), views(hits@)), by_score()),
                limit as nat,
            ),
    {
        let ghost wanted = self.scores(views(candidates@), views(hits@));
        let mut scored: Vec<(usize, Score)> = Vec::new();
        let mut i: usize = 0;
        while i < candidates.len()
            invariant
                i <= candidates@.len(),
                candidates@.len() == hits@.len(),
                forall|i: int|
                    0 <= i < candidates@.len() ==> ranks_fit((#[trigger] candidates@[i])@),
                wanted == self.scores(views(candidates@), views(hits@)),
                scored@ == wanted.take(i as int),
            decreases candidates@.len() - i,
        {
            assert(views(candidates@)[i as int] == candidates@[i as int]@);
            assert(views(hits@)[i as int] == hits@[i as int]@);
            let f = self.compute_score(&candidates[i], &hits[i]);
            proof {
                lemma_wide_of(f.num);
            }
            scored.push((i, f));
            i += 1;
            assert(scored@ =~= wanted.take(i as int));
        }
        assert(wanted.take(i as int) =~= wanted);
        let mut sorted = sort_by(scored, scored_less, Ghost(by_score()));
        if sorted.len() > limit {
            sorted.truncate(limit);
        }
        sorted
    }
}

/// The order of scored places: the higher score first.
pub open spec fn by_score() -> spec_fn((usize, Score), (usize, Score)) -> bool {
    |a: (usize, Score), b: (usize, Score)| higher(a.1, b.1)
}

fn scored_less(a: &(usize, Score), b: &(usize, Score)) -> (r: bool)
    ensures
        r == higher(a.1, b.1),
{
    is_higher(&a.1, &b.1)
}

proof fn lemma_by_score_is_weak_order()
    ensures
        is_weak_order(by_score()),
{
    let lt = by_score();
    assert(is_weak_order(lt)) by {
        assert forall|a: (usize, Score), b: (usize, Score), c: (usize, Score)| #[trigger]
            lt(a, b) && #[trigger] lt(b, c) implies lt(a, c) by {
            lemma_chain(
                a.1.num.value() as int,
                below(a.1),
                b.1.num.value() as int,
                below(b.1),
                c.1.num.value() as int,
                below(c.1),
            );
        }
        assert forall|a: (usize, Score), b: (usize, Score), c: (usize, Score)|
            !#[trigger] lt(a, b) && !#[trigger] lt(b, c) implies !lt(a, c) by {
            lemma_chain(
                a.1.num.value() as int,
                below(a.1),
                b.1.num.value() as int,
                below(b.1),
                c.1.num.value() as int,
                below(c.1),
            );
        }
    }
}

/// Ranked hits come with falling scores.
pub proof fn ranked_scores_fall(items: Seq<(usize, Score)>)
    ensures
        in_order(sorted_by(items, by_score()), by_score()),
{
    lemma_by_score_is_weak_order();
    sorted_is_in_order(items, by_score());
}

/// The score of a candidate is its fused ranks times its boost.
pub proof fn score_is_rank_times_boost(
    scoring: Scoring<'_>,
    c: CandidateModel,
    hit: HitModel,
    f: Fraction,
)
    requires
        ranks_fit(c),
        is_fused_score(
            f,
            scoring.weights,
            scoring.config.k,
            match c.bm25_rank {
                Some(n) => Some(n as u32),
                None => None,
            },
            match c.vector_rank {
                Some(n) => Some(n as u32),
                None => None,
            },
        ),
    ensures
        scoring.score(c, hit).0 == f.num * scoring.reranker.boost(
            scoring.query@,
            hit.title,
            hit.breadcrumbs,
            hit.tags,
            hit.pagerank,
        ),
        scoring.score(c, hit).1 == f.den,
{
}

/// The hits come best first. Each is one of the candidates with its score, none comes
/// twice, there are as many as asked for or all of them, and none that is left out
/// scores higher than one that is not: of two scores the one is higher whose numerator
/// times the other's denominator is.
pub proof fn best_candidates_come_first(
    scoring: Scoring<'_>,
    candidates: Seq<CandidateModel>,
    hits: Seq<HitModel>,
    limit: nat,
)
    requires
        candidates.len() <= usize::MAX,
    ensures
        ({
            let all = scoring.scores(candidates, hits);
            let r = first_of(sorted_by(all, by_score()), limit);
            &&& r.len() == limit || (r.len() < limit && r.len() == candidates.len())
            &&& forall|i: int, j: int|
                0 <= i < j < r.len() ==> (#[trigger] r[i]).0 != (#[trigger] r[j]).0
                    && r[i].1.num.value() * (if r[j].1.den == 0 {
                    1
                } else {
                    r[j].1.den as int
                }) >= r[j].1.num.value() * (if r[i].1.den == 0 {
                    1
                } else {
                    r[i].1.den as int
                })
            &&& forall|i: int|
                0 <= i < r.len() ==> (#[trigger] r[i]).0 < candidates.len() && r[i]
                    == all[r[i].0 as int]
            &&& forall|k: int, i: int|
                0 <= k < all.len() && 0 <= i < r.len() && !r.contains(all[k]) ==> (
                #[trigger] all[k]).1.num.value() * (if r[i].1.den == 0 {
                    1
                } else {
                    r[i].1.den as int
                }) <= (#[trigger] r[i]).1.num.value() * (if all[k].1.den == 0 {
                    1
                } else {
                    all[k].1.den as int
                })
        }),
{
    let all = scoring.scores(candidates, hits);
    let lt = by_score();
    let t = sorted_by(all, lt);
    let r = first_of(t, limit);
    lemma_by_score_is_weak_order();
    first_sorted_are_the_least(all, lt, limit);
    assert(all.no_duplicates()) by {
        assert forall|i: int, j: int| 0 <= i < all.len() && 0 <= j < all.len() && i != j implies all[i]
            != all[j] by {
            assert(all[i].0 == i && all[j].0 == j);
        }
    }
    sorted_differ(all, lt);
    assert forall|i: int| 0 <= i < r.len() implies (#[trigger] r[i]).0 < candidates.len() && r[i]
        == all[r[i].0 as int] by {
        assert(all.contains(r[i]));
        let k = choose|k: int| 0 <= k < all.len() && all[k] == r[i];
        assert(all[k].0 == k);
    }
    assert forall|i: int, j: int| 0 <= i < j < r.len() implies (#[trigger] r[i]).0 != (
    #[trigger] r[j]).0 && r[i].1.num.value() * below(r[j].1) >= r[j].1.num.value() * below(
        r[i].1,
    ) by {
        assert(!lt(r[j], r[i]));
        assert(r[i] == t[i] && r[j] == t[j]);
        assert(t[i] != t[j]);
        assert(r[i] == all[r[i].0 as int] && r[j] == all[r[j].0 as int]);
    }
    assert forall|k: int, i: int|
        0 <= k < all.len() && 0 <= i < r.len() && !r.contains(all[k]) implies (
    #[trigger] all[k]).1.num.value() * below(r[i].1) <= (#[trigger] r[i]).1.num.value() * below(
        all[k].1,
    ) by {
        assert(!lt(all[k], r[i]));
    }
}

} // verus!
