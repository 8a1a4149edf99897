//! Quantised vectors, exact scans, and how well a search did beside one.

use crate::retrieval::{best_first, rank_by_score};
use crate::sorting::{sort_by, sorted_by, sorted_keeps_items};
use vstd::prelude::*;

verus! {

// ---------------------------------------------------------------------------
// Vectors of small integers
// ---------------------------------------------------------------------------

/// The sum of the products of the components.
pub open spec fn dot_product(a: Seq<i8>, b: Seq<i8>) -> int
    decreases a.len(),
{
    if a.len() == 0 || b.len() < a.len() {
        0
    } else {
        dot_product(a.drop_last(), b.take(a.len() - 1)) + a.last() * b[a.len() - 1]
    }
}

/// A vector whose components are held as signed bytes.
#[derive(Debug)]
pub struct Sq8Vector {
    pub data: Vec<i8>,
}

proof fn lemma_product_range(x: i8, y: i8)
    ensures
        -16384 <= x * y <= 16384,
{
    assert(-16384 <= x * y <= 16384) by (nonlinear_arith)
        requires
            -128 <= x <= 127,
            -128 <= y <= 127,
    ;
}

impl Sq8Vector {
    /// The integer product of two vectors of one length.
    pub fn dot(&self, other: &Sq8Vector) -> (r: i32)
        requires
            self.data@.len() == other.data@.len(),
            self.data@.len() <= 131071,
        ensures
            r == dot_product(self.data@, other.data@),
    {
        let mut dot: i32 = 0;
        let mut i: usize = 0;
        while i < self.data.len()
            invariant
                i <= self.data@.len(),
                self.data@.len() == other.data@.len(),
                self.data@.len() <= 131071,
                dot == dot_product(self.data@.take(i as int), other.data@.take(i as int)),
                -16384 * i <= dot <= 16384 * i,
            decreases self.data@.len() - i,
        {
            let ghost a = self.data@.take(i + 1);
            let ghost b = other.data@.take(i + 1);
            let x: i8 = self.data[i];
            let y: i8 = other.data[i];
            proof {
                lemma_product_range(x, y);
                assert(a.drop_last() =~= self.data@.take(i as int));
                assert(b.take(a.len() - 1) =~= other.data@.take(i as int));
            }
            dot = dot + (x as i32) * (y as i32);
            i += 1;
        }
        assert(self.data@.take(i as int) =~= self.data@);
        assert(other.data@.take(i as int) =~= other.data@);
        dot
    }

    /// The sum of the squares of the components.
    pub fn norm_sq(&self) -> (r: i64)
        requires
            self.data@.len() <= 0xffff_ffff,
        ensures
            r == dot_product(self.data@, self.data@),
            r >= 0,
    {
        let mut sum: i64 = 0;
        let mut i: usize = 0;
        while i < self.data.len()
            invariant
                i <= self.data@.len(),
                self.data@.len() <= 0xffff_ffff,
                sum == dot_product(self.data@.take(i as int), self.data@.take(i as int)),
                0 <= sum <= 16384 * i,
            decreases self.data@.len() - i,
        {
            let ghost a = self.data@.take(i + 1);
            let x: i8 = self.data[i];
            proof {
                lemma_product_range(x, x);
                assert(x * x >= 0) by (nonlinear_arith);
                assert(a.drop_last() =~= self.data@.take(i as int));
                assert(a.take(a.len() - 1) =~= self.data@.take(i as int));
            }
            sum = sum + (x as i64) * (x as i64);
            i += 1;
        }
        assert(self.data@.take(i as int) =~= self.data@);
        sum
    }
}

/// The product of two vectors does not depend on their order.
pub proof fn dot_product_commutes(a: Seq<i8>, b: Seq<i8>)
    requires
        a.len() == b.len(),
    ensures
        dot_product(a, b) == dot_product(b, a),
    decreases a.len(),
{
    if a.len() > 0 {
        dot_product_commutes(a.drop_last(), b.drop_last());
        assert(b.take(a.len() - 1) =~= b.drop_last());
        assert(a.take(b.len() - 1) =~= a.drop_last());
        let x = a.last();
        let y = b.last();
        assert(x * y == y * x) by (nonlinear_arith);
    }
}

// ---------------------------------------------------------------------------
// Exact scans
// ---------------------------------------------------------------------------

/// The baseline: every stored vector is looked at.
pub struct BruteForceScan;

impl BruteForceScan {
    /// The `k` most similar of the scored vectors, best first; equal ones by number.
    pub fn search(similarities: &Vec<u32>, k: usize) -> (r: Vec<(usize, u32)>)
        ensures
            r@ == best_first(similarities@, k as nat),
    {
        rank_by_score(similarities, k)
    }
}

// ---------------------------------------------------------------------------
// Evaluation
// ---------------------------------------------------------------------------

/// The first `k` of a list, or all of it.
pub open spec fn head(s: Seq<usize>, k: nat) -> Seq<usize> {
    if s.len() < k {
        s
    } else {
        s.take(k as int)
    }
}

/// How many entries of one list are in the other.
pub open spec fn shared_count(s: Seq<usize>, t: Seq<usize>) -> nat
    decreases s.len(),
{
    if s.len() == 0 {
        0
    } else {
        shared_count(s.drop_last(), t) + if t.contains(s.last()) {
            1nat
        } else {
            0
        }
    }
}

fn has(s: &Vec<usize>, n: usize, x: usize) -> (r: bool)
    requires
        n <= s@.len(),
    ensures
        r == s@.take(n as int).contains(x),
{
    let mut i: usize = 0;
    while i < n
        invariant
            i <= n,
            n <= s@.len(),
            !s@.take(i as int).contains(x),
        decreases n - i,
    {
        if s[i] == x {
            assert(s@.take(n as int)[i as int] == x);
            return true;
        }
        proof {
            let more = s@.take(i + 1);
            if more.contains(x) {
                let j = choose|j: int| 0 <= j < more.len() && more[j] == x;
                assert(s@.take(i as int)[j] == x);
            }
        }
        i += 1;
    }
    false
}

/// Measures of searches.
pub struct VectorEvalSuite;

impl VectorEvalSuite {
    /// How many of the first `k` found are among the first `k` that should have been,
    /// out of `k`; one out of one where there was nothing to find.
    pub fn compute_recall(ann: &Vec<usize>, exact: &Vec<usize>, k: usize) -> (r: (usize, usize))
        ensures
            ({
                let wanted = head(exact@, k as nat);
                if wanted.len() == 0 {
                    r == (1usize, 1usize)
                } else {
                    r.0 == shared_count(head(ann@, k as nat), wanted) && r.1 == k
                }
            }),
    {
        let k_ann: usize = if ann.len() < k {
            ann.len()
        } else {
            k
        };
        let k_exact: usize = if exact.len() < k {
            exact.len()
        } else {
            k
        };
        assert(ann@.take(k_ann as int) =~= head(ann@, k as nat));
        assert(exact@.take(k_exact as int) =~= head(exact@, k as nat));
        if k_exact == 0 {
            return (1, 1);
        }
        let ghost wanted = head(exact@, k as nat);
        let mut matches: usize = 0;
        let mut i: usize = 0;
        while i < k_ann
            invariant
                i <= k_ann,
                k_ann <= ann@.len(),
                k_exact <= exact@.len(),
                wanted == exact@.take(k_exact as int),
                matches == shared_count(ann@.take(i as int), wanted),
                matches <= i,
            decreases k_ann - i,
        {
            assert(ann@.take(i + 1).drop_last() =~= ann@.take(i as int));
            if has(exact, k_exact, ann[i]) {
                matches += 1;
            }
            i += 1;
        }
        (matches, k)
    }

    /// The latency that this many percent of the queries stayed below.
    pub fn percentile(latencies: &Vec<u64>, percent: usize) -> (r: u64)
        requires
            latencies@.len() > 0,
            percent < 100,
            latencies@.len() * percent <= usize::MAX,
        ensures
            r == sorted_by(latencies@, |a: u64, b: u64| a < b)[(latencies@.len() * percent) as int
                / 100],
    {
        let ghost lt = |a: u64, b: u64| a < b;
        let mut copy: Vec<u64> = Vec::new();
        let mut i: usize = 0;
        while i < latencies.len()
            invariant
                i <= latencies@.len(),
                copy@ == latencies@.take(i as int),
            decreases latencies@.len() - i,
        {
            copy.push(latencies[i]);
            i += 1;
            assert(copy@ =~= latencies@.take(i as int));
        }
        assert(latencies@.take(i as int) =~= latencies@);
        proof {
            sorted_keeps_items(latencies@, lt);
            let n = latencies@.len() as int;
            let p = percent as int;
            assert(n * p / 100 < n) by (nonlinear_arith)
                requires
                    n > 0,
                    0 <= p < 100,
            ;
            assert(n * p / 100 >= 0) by (nonlinear_arith)
                requires
                    n > 0,
                    0 <= p,
            ;
        }
        let sorted = sort_by(copy, latency_less, Ghost(lt));
        let at: usize = latencies.len() * percent / 100;
        sorted[at]
    }
}

fn latency_less(a: &u64, b: &u64) -> (r: bool)
    ensures
        r == (*a < *b),
{
    *a < *b
}

/// All of an exact answer is found.
pub proof fn exact_answer_has_full_recall(s: Seq<usize>)
    ensures
        shared_count(s, s) == s.len(),
{
    lemma_all_shared(s, s);
}

proof fn lemma_all_shared(s: Seq<usize>, t: Seq<usize>)
    requires
        forall|i: int| 0 <= i < s.len() ==> t.contains(#[trigger] s[i]),
    ensures
        shared_count(s, t) == s.len(),
    decreases s.len(),
{
    if s.len() > 0 {
        assert(t.contains(s[s.len() - 1]));
        assert forall|i: int| 0 <= i < s.drop_last().len() implies t.contains(
            #[trigger] s.drop_last()[i],
        ) by {
            assert(t.contains(s[i]));
        }
        lemma_all_shared(s.drop_last(), t);
    }
}

/// Recall is a share: where nothing is found twice, there are no more matches than
/// things to find.
pub proof fn recall_is_at_most_full(s: Seq<usize>, t: Seq<usize>)
    requires
        s.no_duplicates(),
    ensures
        shared_count(s, t) <= t.len(),
        shared_count(s, t) <= s.len(),
    decreases s.len(),
{
    if s.len() > 0 {
        let x = s.last();
        let rest = s.drop_last();
        if t.contains(x) {
            let j = choose|j: int| 0 <= j < t.len() && t[j] == x;
            let fewer = t.remove(j);
            recall_is_at_most_full(rest, fewer);
            lemma_without(rest, t, j);
        } else {
            recall_is_at_most_full(rest, t);
        }
    }
}

proof fn lemma_without(s: Seq<usize>, t: Seq<usize>, j: int)
    requires
        0 <= j < t.len(),
        forall|i: int| 0 <= i < s.len() ==> #[trigger] s[i] != t[j],
    ensures
        shared_count(s, t) == shared_count(s, t.remove(j)),
    decreases s.len(),
{
    if s.len() > 0 {
        lemma_without(s.drop_last(), t, j);
        let x = s.last();
        assert(s[s.len() - 1] != t[j]);
        if t.contains(x) {
            let k = choose|k: int| 0 <= k < t.len() && t[k] == x;
            if k < j {
                assert(t.remove(j)[k] == x);
            } else {
                assert(t.remove(j)[k - 1] == x);
            }
        }
        if t.remove(j).contains(x) {
            let k = choose|k: int| 0 <= k < t.remove(j).len() && t.remove(j)[k] == x;
            if k < j {
                assert(t[k] == x);
            } else {
                assert(t[k + 1] == x);
            }
        }
    }
}

/// What is shared is what of the one list is in the other.
pub proof fn shared_are_those_in_both(s: Seq<usize>, t: Seq<usize>)
    ensures
        shared_count(s, t) == s.filter(|x: usize| t.contains(x)).len(),
    decreases s.len(),
{
    reveal(Seq::filter);
    if s.len() > 0 {
        shared_are_those_in_both(s.drop_last(), t);
    }
}

/// The product of two vectors adds up over their parts, and that of two numbers is their
/// product.
pub proof fn dot_products_add_up(a: Seq<i8>, b: Seq<i8>, x: i8, y: i8)
    requires
        a.len() == b.len(),
    ensures
        dot_product(a.push(x), b.push(y)) == dot_product(a, b) + x * y,
        dot_product(Seq::<i8>::empty(), Seq::<i8>::empty()) == 0,
{
    assert(a.push(x).drop_last() =~= a);
    assert(b.push(y).take(a.len() as int) =~= b);
}

/// Of the latencies, sorted, no more than this many percent lie below the percentile.
pub proof fn percentile_parts_the_latencies(latencies: Seq<u64>, at: int)
    requires
        0 <= at < latencies.len(),
    ensures
        ({
            let sorted = sorted_by(latencies, |a: u64, b: u64| a < b);
            &&& sorted.to_multiset() == latencies.to_multiset()
            &&& forall|i: int| 0 <= i < at ==> #[trigger] sorted[i] <= sorted[at]
            &&& forall|i: int| at <= i < sorted.len() ==> #[trigger] sorted[i] >= sorted[at]
        }),
{
    let lt = |a: u64, b: u64| a < b;
    crate::sorting::sorted_is_in_order(latencies, lt);
    sorted_keeps_items(latencies, lt);
    let sorted = sorted_by(latencies, lt);
    assert forall|i: int| 0 <= i < at implies #[trigger] sorted[i] <= sorted[at] by {
        assert(!lt(sorted[at], sorted[i]));
    }
    assert forall|i: int| at <= i < sorted.len() implies #[trigger] sorted[i] >= sorted[at] by {
        if i > at {
            assert(!lt(sorted[i], sorted[at]));
        }
    }
}

} // verus!
