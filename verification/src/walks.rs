//! Random walks over neighbourhoods, of which each step looks back one step.

use crate::adjacency::{
    lemma_weight_at, lemma_weighted_is_listed, row_sound, row_sum, rows_sound, weight_in,
};
use crate::rng::{FastRng, RngState};
use crate::wide::{is_less, product, sum, times, wide_limit, widened, Wide};
use vstd::prelude::*;

verus! {

// ---------------------------------------------------------------------------
// Drawing by weight
// ---------------------------------------------------------------------------

/// The weights together.
pub open spec fn sum_of(weights: Seq<nat>) -> nat
    decreases weights.len(),
{
    if weights.len() == 0 {
        0
    } else {
        sum_of(weights.drop_last()) + weights.last()
    }
}

/// The first place from `i` on up to which the weights make up the drawn share of
/// the whole; the last place at the latest.
pub open spec fn picked_from(weights: Seq<nat>, share: nat, i: int) -> int
    decreases weights.len() - i,
{
    if i >= weights.len() - 1 || share * sum_of(weights) <= sum_of(weights.take(i + 1))
        * 0x100_0000 {
        i
    } else {
        picked_from(weights, share, i + 1)
    }
}

/// The place that a drawn share of the whole falls on, in units of two to the
/// minus 24.
pub open spec fn picked(weights: Seq<nat>, share: nat) -> int {
    picked_from(weights, share, 0)
}

/// The numbers of a vector as natural numbers.
pub open spec fn nats(s: Seq<Wide>) -> Seq<nat> {
    Seq::new(s.len(), |i: int| s[i].value())
}

/// The first number that weights must not come to.
pub open spec fn sum_limit() -> int {
    0x1_0000_0000_0000_0000_0000_0000_0000_0000_0000_0000_0000_0000int
}

proof fn lemma_part_sum(weights: Seq<nat>, k: int)
    requires
        0 <= k <= weights.len(),
    ensures
        sum_of(weights.take(k)) <= sum_of(weights),
    decreases weights.len(),
{
    if k < weights.len() {
        lemma_part_sum(weights.drop_last(), k);
        assert(weights.drop_last().take(k) =~= weights.take(k));
    } else {
        assert(weights.take(k) =~= weights);
    }
}

fn pick(weights: &Vec<Wide>, share: u32) -> (r: usize)
    requires
        weights@.len() > 0,
        sum_of(nats(weights@)) < sum_limit(),
        share < 0x100_0000,
    ensures
        r == picked(nats(weights@), share as nat),
        r < weights@.len(),
{
    let ghost all = nats(weights@);
    let mut total: Wide = widened(0);
    let mut i: usize = 0;
    while i < weights.len()
        invariant
            i <= weights@.len(),
            all == nats(weights@),
            sum_of(all) < sum_limit(),
            total.value() == sum_of(all.take(i as int)),
        decreases weights@.len() - i,
    {
        proof {
            assert(all.take(i + 1).drop_last() =~= all.take(i as int));
            lemma_part_sum(all, i + 1);
        }
        total = sum(total, weights[i]);
        i += 1;
    }
    assert(all.take(i as int) =~= all);
    proof {
        lemma_share_fits(total.value() as int, share as int);
    }
    let drawn = times(total, share as u128);
    let mut part: Wide = widened(0);
    let mut k: usize = 0;
    let last: usize = weights.len() - 1;
    while k < last
        invariant_except_break
            part.value() == sum_of(all.take(k as int)),
        invariant
            last == weights@.len() - 1,
            k <= last,
            all == nats(weights@),
            sum_of(all) < sum_limit(),
            drawn.value() == sum_of(all) * share,
            share < 0x100_0000,
            picked(all, share as nat) == picked_from(all, share as nat, k as int),
        ensures
            k <= last,
            picked(all, share as nat) == picked_from(all, share as nat, k as int),
            k == last || picked_from(all, share as nat, k as int) == k,
        decreases last - k,
    {
        proof {
            assert(all.take(k + 1).drop_last() =~= all.take(k as int));
            lemma_part_sum(all, k + 1);
            let t = sum_of(all);
            assert(share * t == t * share) by (nonlinear_arith);
        }
        part = sum(part, weights[k]);
        proof {
            lemma_share_fits(part.value() as int, 0x100_0000);
        }
        let reached = times(part, 0x100_0000);
        if !is_less(&reached, &drawn) {
            break;
        }
        k += 1;
    }
    k
}

proof fn lemma_share_fits(total: int, share: int)
    requires
        0 <= total < sum_limit(),
        0 <= share <= 0x100_0000,
    ensures
        0 <= total * share < wide_limit(),
{
    let most = sum_limit();
    assert(0 <= total * share <= most * 0x100_0000) by (nonlinear_arith)
        requires
            0 <= total < most,
            0 <= share <= 0x100_0000,
    ;
}

// ---------------------------------------------------------------------------
// Steps
// ---------------------------------------------------------------------------

/// The unit in which the parameters of a walk are given: a million is one.
pub const ONE: u32 = 1_000_000;

/// A parameter, not smaller than ten millionths.
pub open spec fn floored(p: u64) -> nat {
    if p < 10 {
        10
    } else {
        p as nat
    }
}

/// How much a step is favoured: by one over `p` where it goes back, by one over `q`
/// where it leaves the neighbourhood of the node before, all times `p` and `q` in
/// millionths.
pub open spec fn favour(prev_row: Seq<(usize, u64)>, prev: usize, x: usize, p: u64, q: u64) -> nat {
    if x == prev {
        ONE as nat * floored(q)
    } else if weight_in(prev_row, x as int) > 0 {
        floored(p) * floored(q)
    } else {
        ONE as nat * floored(p)
    }
}

/// The weights of a first step.
pub open spec fn plain_weights(row: Seq<(usize, u64)>) -> Seq<nat> {
    Seq::new(row.len(), |k: int| row[k].1 as nat)
}

/// The weights of a step that looks back.
pub open spec fn biased_weights(
    row: Seq<(usize, u64)>,
    prev_row: Seq<(usize, u64)>,
    prev: usize,
    p: u64,
    q: u64,
) -> Seq<nat> {
    Seq::new(row.len(), |k: int| row[k].1 as nat * favour(prev_row, prev, row[k].0, p, q))
}

/// A step by the weights; where there is one neighbour nothing is drawn.
pub open spec fn stepped(row: Seq<(usize, u64)>, weights: Seq<nat>, s: RngState) -> (
    usize,
    RngState,
) {
    if row.len() == 1 {
        (row[0].0, s)
    } else {
        (row[picked(weights, s.share())].0, s.next())
    }
}

proof fn lemma_plain_sum(row: Seq<(usize, u64)>)
    ensures
        sum_of(plain_weights(row)) == row_sum(row),
    decreases row.len(),
{
    if row.len() > 0 {
        lemma_plain_sum(row.drop_last());
        assert(plain_weights(row).drop_last() =~= plain_weights(row.drop_last()));
    }
}

proof fn lemma_biased_sum(
    row: Seq<(usize, u64)>,
    prev_row: Seq<(usize, u64)>,
    prev: usize,
    p: u64,
    q: u64,
)
    ensures
        sum_of(biased_weights(row, prev_row, prev, p, q)) <= row_sum(row)
            * 0xffff_ffff_ffff_ffff_ffff_ffff_ffff_ffffint,
    decreases row.len(),
{
    if row.len() > 0 {
        let rest = row.drop_last();
        lemma_biased_sum(rest, prev_row, prev, p, q);
        assert(biased_weights(row, prev_row, prev, p, q).drop_last() =~= biased_weights(
            rest,
            prev_row,
            prev,
            p,
            q,
        ));
        let f = favour(prev_row, prev, row.last().0, p, q);
        lemma_favour_bound(prev_row, prev, row.last().0, p, q);
        let w = row.last().1 as int;
        assert(w * f <= w * 0xffff_ffff_ffff_ffff_ffff_ffff_ffff_ffffint) by (nonlinear_arith)
            requires
                w >= 0,
                0 <= f <= 0xffff_ffff_ffff_ffff_ffff_ffff_ffff_ffffint,
        ;
        let a = row_sum(rest) as int;
        assert((a + w) * 0xffff_ffff_ffff_ffff_ffff_ffff_ffff_ffffint == a * 0xffff_ffff_ffff_ffff_ffff_ffff_ffff_ffffint + w
            * 0xffff_ffff_ffff_ffff_ffff_ffff_ffff_ffffint) by (nonlinear_arith);
    } else {
        assert(row_sum(row) * 0xffff_ffff_ffff_ffff_ffff_ffff_ffff_ffffint == 0) by (nonlinear_arith)
            requires
                row_sum(row) == 0,
        ;
    }
}

proof fn lemma_favour_bound(prev_row: Seq<(usize, u64)>, prev: usize, x: usize, p: u64, q: u64)
    ensures
        favour(prev_row, prev, x, p, q) <= 0xffff_ffff_ffff_ffff_ffff_ffff_ffff_ffffint,
        floored(p) * floored(q) <= 0xffff_ffff_ffff_ffff_ffff_ffff_ffff_ffffint,
{
    let a = floored(p) as int;
    let b = floored(q) as int;
    assert(a * b <= 0xffff_ffff_ffff_ffffint * 0xffff_ffff_ffff_ffffint) by (nonlinear_arith)
        requires
            0 <= a <= 0xffff_ffff_ffff_ffffint,
            0 <= b <= 0xffff_ffff_ffff_ffffint,
    ;
}

/// Whether a row lists the node.
fn lists_node(row: &Vec<(usize, u64)>, x: usize, Ghost(n): Ghost<int>) -> (r: bool)
    requires
        row_sound(row@, n),
    ensures
        r == (weight_in(row@, x as int) > 0),
{
    let mut i: usize = 0;
    while i < row.len()
        invariant
            i <= row@.len(),
            row_sound(row@, n),
            forall|j: int| 0 <= j < i ==> (#[trigger] row@[j]).0 != x,
        decreases row@.len() - i,
    {
        if row[i].0 == x {
            proof {
                lemma_weight_at(row@, i as int);
            }
            return true;
        }
        i += 1;
    }
    proof {
        if weight_in(row@, x as int) > 0 {
            lemma_weighted_is_listed(row@, x as int);
        }
    }
    false
}

/// Draws the first step from a node by the weights of its links.
pub fn sample_first_step(row: &Vec<(usize, u64)>, rng: &mut FastRng) -> (r: usize)
    requires
        row@.len() > 0,
        row_sum(row@) <= u64::MAX,
    ensures
        (r, final(rng)@) == stepped(row@, plain_weights(row@), old(rng)@),
        exists|k: int| 0 <= k < row@.len() && (#[trigger] row@[k]).0 == r,
{
    if row.len() == 1 {
        assert(row@[0].0 == row@[0].0);
        return row[0].0;
    }
    let share: u32 = rng.gen_share();
    let mut weights: Vec<Wide> = Vec::new();
    let mut i: usize = 0;
    while i < row.len()
        invariant
            i <= row@.len(),
            weights@.len() == i,
            forall|j: int| 0 <= j < i ==> (#[trigger] weights@[j]).value() == row@[j].1,
        decreases row@.len() - i,
    {
        weights.push(widened(row[i].1 as u128));
        i += 1;
    }
    assert(nats(weights@) =~= plain_weights(row@));
    proof {
        lemma_plain_sum(row@);
    }
    let k: usize = pick(&weights, share);
    assert(row@[k as int].0 == row@[k as int].0);
    row[k].0
}

/// Draws a step from `curr` that looks back at `prev`; a node without neighbours is
/// not left.
pub fn sample_second_order_step(
    rows: &Vec<Vec<(usize, u64)>>,
    p: u64,
    q: u64,
    prev: usize,
    curr: usize,
    rng: &mut FastRng,
) -> (r: usize)
    requires
        rows_sound(rows@),
        prev < rows@.len(),
        curr < rows@.len(),
    ensures
        rows@[curr as int]@.len() == 0 ==> r == curr && final(rng)@ == old(rng)@,
        rows@[curr as int]@.len() > 0 ==> {
            &&& (r, final(rng)@) == stepped(
                rows@[curr as int]@,
                biased_weights(rows@[curr as int]@, rows@[prev as int]@, prev, p, q),
                old(rng)@,
            )
            &&& exists|k: int|
                0 <= k < rows@[curr as int]@.len() && (#[trigger] rows@[curr as int]@[k]).0 == r
        },
{
    let row = &rows[curr];
    let prev_row = &rows[prev];
    if row.len() == 0 {
        return curr;
    }
    if row.len() == 1 {
        assert(row@[0].0 == row@[0].0);
        return row[0].0;
    }
    let fp: u128 = if p < 10 {
        10
    } else {
        p as u128
    };
    let fq: u128 = if q < 10 {
        10
    } else {
        q as u128
    };
    let ghost want = biased_weights(row@, prev_row@, prev, p, q);
    let mut weights: Vec<Wide> = Vec::new();
    let mut i: usize = 0;
    while i < row.len()
        invariant
            i <= row@.len(),
            row_sound(row@, rows@.len() as int),
            row_sound(prev_row@, rows@.len() as int),
            fp == floored(p),
            fq == floored(q),
            want == biased_weights(row@, prev_row@, prev, p, q),
            weights@.len() == i,
            forall|j: int| 0 <= j < i ==> (#[trigger] weights@[j]).value() == want[j],
        decreases row@.len() - i,
    {
        let x: usize = row[i].0;
        proof {
            lemma_favour_bound(prev_row@, prev, x, p, q);
        }
        let f: u128 = if x == prev {
            1_000_000 * fq
        } else if lists_node(prev_row, x, Ghost(rows@.len() as int)) {
            fp * fq
        } else {
            1_000_000 * fp
        };
        proof {
            assert(f == favour(prev_row@, prev, x, p, q));
        }
        weights.push(product(row[i].1 as u128, f));
        i += 1;
    }
    assert(nats(weights@) =~= want);
    proof {
        lemma_biased_sum(row@, prev_row@, prev, p, q);
        let a = row_sum(row@) as int;
        assert(row_sum(rows@[curr as int]@) <= u64::MAX);
        let most = 0xffff_ffff_ffff_ffff_ffff_ffff_ffff_ffffint;
        assert(a * most <= 0xffff_ffff_ffff_ffffint * most) by (nonlinear_arith)
            requires
                0 <= a <= 0xffff_ffff_ffff_ffffint,
                most >= 0,
        ;
    }
    let share: u32 = rng.gen_share();
    let k: usize = pick(&weights, share);
    assert(row@[k as int].0 == row@[k as int].0);
    row[k].0
}

// ---------------------------------------------------------------------------
// Walks
// ---------------------------------------------------------------------------

/// The rows as sequences.
pub open spec fn plain(rows: Seq<Vec<(usize, u64)>>) -> Seq<Seq<(usize, u64)>> {
    Seq::new(rows.len(), |i: int| rows[i]@)
}

/// How far and how walks go.
pub struct WalkPlan {
    pub p: u64,
    pub q: u64,
    pub length: nat,
}

/// A walk of two nodes or more, taken on until it is long enough.
pub open spec fn walked_on(
    rows: Seq<Seq<(usize, u64)>>,
    plan: WalkPlan,
    walk: Seq<usize>,
    s: RngState,
) -> (Seq<usize>, RngState)
    decreases plan.length - walk.len(),
{
    let curr = walk.last();
    let prev = walk[walk.len() - 2];
    if walk.len() >= plan.length || rows[curr as int].len() == 0 {
        (walk, s)
    } else {
        let step = stepped(
            rows[curr as int],
            biased_weights(rows[curr as int], rows[prev as int], prev, plan.p, plan.q),
            s,
        );
        walked_on(rows, plan, walk.push(step.0), step.1)
    }
}

/// The walk from a node: the first step goes by the weights alone.
pub open spec fn walked(
    rows: Seq<Seq<(usize, u64)>>,
    plan: WalkPlan,
    start: usize,
    s: RngState,
) -> (Seq<usize>, RngState) {
    if plan.length <= 1 || rows[start as int].len() == 0 {
        (seq![start], s)
    } else {
        let step = stepped(rows[start as int], plain_weights(rows[start as int]), s);
        walked_on(rows, plan, seq![start, step.0], step.1)
    }
}

/// Each node of the walk is a neighbour of the one before it.
pub open spec fn follows_links(rows: Seq<Seq<(usize, u64)>>, walk: Seq<usize>) -> bool {
    forall|k: int|
        0 < k < walk.len() ==> walk[k - 1] < rows.len() && weight_in(
            rows[walk[k - 1] as int],
            #[trigger] walk[k] as int,
        ) > 0
}

/// Walks from a node over the neighbourhoods.
pub fn node2vec_walk(
    rows: &Vec<Vec<(usize, u64)>>,
    p: u64,
    q: u64,
    length: usize,
    start: usize,
    rng: &mut FastRng,
) -> (r: Vec<usize>)
    requires
        rows_sound(rows@),
        start < rows@.len(),
    ensures
        (r@, final(rng)@) == walked(
            plain(rows@),
            WalkPlan { p, q, length: length as nat },
            start,
            old(rng)@,
        ),
        r@.len() >= 1,
        r@[0] == start,
        follows_links(plain(rows@), r@),
        forall|k: int| 0 <= k < r@.len() ==> #[trigger] r@[k] < rows@.len(),
        r@.len() == if length > 1 && rows@[start as int]@.len() > 0 {
            length as nat
        } else {
            1
        },
{
    let ghost flat = plain(rows@);
    let ghost plan = WalkPlan { p, q, length: length as nat };
    let ghost s0 = rng@;
    let mut walk: Vec<usize> = Vec::new();
    walk.push(start);
    assert(walk@ =~= seq![start]);
    if length <= 1 {
        return walk;
    }
    if rows[start].len() == 0 {
        return walk;
    }
    assert(row_sum(rows@[start as int]@) <= u64::MAX);
    let first: usize = sample_first_step(&rows[start], rng);
    walk.push(first);
    proof {
        let row = rows@[start as int]@;
        let k = choose|k: int| 0 <= k < row.len() && (#[trigger] row[k]).0 == first;
        assert(row_sound(row, rows@.len() as int));
        lemma_weight_at(row, k);
        assert(walk@ =~= seq![start, first]);
    }
    while walk.len() < length
        invariant
            rows_sound(rows@),
            flat == plain(rows@),
            plan == (WalkPlan { p, q, length: length as nat }),
            2 <= walk@.len() <= length,
            walk@[0] == start,
            follows_links(flat, walk@),
            forall|k: int| 0 <= k < walk@.len() ==> #[trigger] walk@[k] < rows@.len(),
            walked_on(flat, plan, walk@, rng@) == walked(flat, plan, start, s0),
        decreases length - walk@.len(),
    {
        let n: usize = walk.len();
        let curr: usize = walk[n - 1];
        let prev: usize = walk[n - 2];
        proof {
            // The node that the step came from is a neighbour in turn.
            assert(walk@[n - 1] == curr);
            assert(weight_in(flat[prev as int], curr as int) > 0);
            assert(weight_in(rows@[curr as int]@, prev as int) == weight_in(
                rows@[prev as int]@,
                curr as int,
            ));
            if rows@[curr as int]@.len() == 0 {
                assert(weight_in(rows@[curr as int]@, prev as int) == 0);
            }
        }
        let next: usize = sample_second_order_step(rows, p, q, prev, curr, rng);
        let ghost before = walk@;
        walk.push(next);
        proof {
            let row = rows@[curr as int]@;
            let k = choose|k: int| 0 <= k < row.len() && (#[trigger] row[k]).0 == next;
            assert(row_sound(row, rows@.len() as int));
            lemma_weight_at(row, k);
            assert forall|k: int| 0 < k < walk@.len() implies walk@[k - 1] < flat.len() && weight_in(
                flat[walk@[k - 1] as int],
                #[trigger] walk@[k] as int,
            ) > 0 by {
                if k < before.len() {
                    assert(walk@[k] == before[k]);
                }
            }
        }
    }
    walk
}

/// Every walk begins where it should, goes from neighbour to neighbour, and is as
/// long as planned wherever there is a way to go at all.
pub proof fn walk_follows_links(rows: Seq<Vec<(usize, u64)>>, plan: WalkPlan, start: usize, s: RngState)
    requires
        rows_sound(rows),
        start < rows.len(),
    ensures
        ({
            let walk = walked(plain(rows), plan, start, s).0;
            &&& walk.len() == (if plan.length > 1 && rows[start as int]@.len() > 0 {
                plan.length
            } else {
                1
            })
            &&& walk[0] == start
            &&& follows_links(plain(rows), walk)
        }),
{
    let flat = plain(rows);
    if plan.length > 1 && rows[start as int]@.len() > 0 {
        let row = rows[start as int]@;
        let step = stepped(row, plain_weights(row), s);
        lemma_step_is_listed(row, plain_weights(row), s);
        let k = choose|k: int| 0 <= k < row.len() && (#[trigger] row[k]).0 == step.0;
        assert(row_sound(row, rows.len() as int));
        lemma_weight_at(row, k);
        lemma_walk_on(rows, plan, seq![start, step.0], step.1);
    }
}

proof fn lemma_picked_range(weights: Seq<nat>, share: nat, i: int)
    requires
        0 <= i < weights.len(),
    ensures
        0 <= picked_from(weights, share, i) < weights.len(),
    decreases weights.len() - i,
{
    if i < weights.len() - 1 {
        lemma_picked_range(weights, share, i + 1);
    }
}

proof fn lemma_step_is_listed(row: Seq<(usize, u64)>, weights: Seq<nat>, s: RngState)
    requires
        row.len() > 0,
        weights.len() == row.len(),
    ensures
        exists|k: int| 0 <= k < row.len() && (#[trigger] row[k]).0 == stepped(row, weights, s).0,
{
    if row.len() == 1 {
        assert(row[0].0 == stepped(row, weights, s).0);
    } else {
        lemma_picked_range(weights, s.share(), 0);
        assert(row[picked(weights, s.share())].0 == stepped(row, weights, s).0);
    }
}

proof fn lemma_walk_on(rows: Seq<Vec<(usize, u64)>>, plan: WalkPlan, walk: Seq<usize>, s: RngState)
    requires
        rows_sound(rows),
        2 <= walk.len() <= plan.length,
        follows_links(plain(rows), walk),
        forall|k: int| 0 <= k < walk.len() ==> #[trigger] walk[k] < rows.len(),
    ensures
        ({
            let r = walked_on(plain(rows), plan, walk, s).0;
            &&& r.len() == plan.length
            &&& r[0] == walk[0]
            &&& follows_links(plain(rows), r)
        }),
    decreases plan.length - walk.len(),
{
    let flat = plain(rows);
    if walk.len() < plan.length {
        let curr = walk.last();
        let prev = walk[walk.len() - 2];
        assert(walk[walk.len() - 1] == curr);
        assert(weight_in(flat[prev as int], curr as int) > 0);
        assert(weight_in(rows[curr as int]@, prev as int) == weight_in(
            rows[prev as int]@,
            curr as int,
        ));
        let row = rows[curr as int]@;
        if row.len() == 0 {
            assert(weight_in(row, prev as int) == 0);
        }
        let weights = biased_weights(row, rows[prev as int]@, prev, plan.p, plan.q);
        let step = stepped(row, weights, s);
        lemma_step_is_listed(row, weights, s);
        let k = choose|k: int| 0 <= k < row.len() && (#[trigger] row[k]).0 == step.0;
        assert(row_sound(row, rows.len() as int));
        lemma_weight_at(row, k);
        let longer = walk.push(step.0);
        assert forall|k: int| 0 < k < longer.len() implies longer[k - 1] < flat.len() && weight_in(
            flat[longer[k - 1] as int],
            #[trigger] longer[k] as int,
        ) > 0 by {
            if k < walk.len() {
                assert(longer[k] == walk[k]);
            }
        }
        lemma_walk_on(rows, plan, longer, step.1);
    }
}

// ---------------------------------------------------------------------------
// Rounds of walks
// ---------------------------------------------------------------------------

/// The nodes after the places from `i` down to the second have each been exchanged
/// with a drawn place not above it.
pub open spec fn shuffled(nodes: Seq<usize>, i: int, s: RngState) -> (Seq<usize>, RngState)
    decreases i,
{
    if i <= 0 {
        (nodes, s)
    } else {
        let draw = s.below((i + 1) as nat);
        let j = draw.0 as int;
        shuffled(nodes.update(i, nodes[j]).update(j, nodes[i]), i - 1, draw.1)
    }
}

/// One walk from each node in turn.
pub open spec fn walks_in_turn(
    rows: Seq<Seq<(usize, u64)>>,
    plan: WalkPlan,
    nodes: Seq<usize>,
    s: RngState,
) -> (Seq<Seq<usize>>, RngState)
    decreases nodes.len(),
{
    if nodes.len() == 0 {
        (Seq::empty(), s)
    } else {
        let (some, s1) = walks_in_turn(rows, plan, nodes.drop_last(), s);
        let (walk, s2) = walked(rows, plan, nodes.last(), s1);
        (some.push(walk), s2)
    }
}

/// What rounds of walks leave behind: the nodes as last shuffled, the walks, and the
/// generator.
pub struct Rounds {
    pub nodes: Seq<usize>,
    pub walks: Seq<Seq<usize>>,
    pub state: RngState,
}

/// Rounds of walks; in each the nodes are shuffled and each starts a walk.
pub open spec fn rounds(
    rows: Seq<Seq<(usize, u64)>>,
    plan: WalkPlan,
    count: nat,
    s: RngState,
) -> Rounds
    decreases count,
{
    if count == 0 {
        Rounds {
            nodes: Seq::new(rows.len(), |i: int| i as usize),
            walks: Seq::empty(),
            state: s,
        }
    } else {
        let before = rounds(rows, plan, (count - 1) as nat, s);
        let (nodes, s1) = shuffled(before.nodes, rows.len() - 1, before.state);
        let (walks, s2) = walks_in_turn(rows, plan, nodes, s1);
        Rounds { nodes, walks: before.walks + walks, state: s2 }
    }
}

fn shuffle(nodes: &mut Vec<usize>, rng: &mut FastRng)
    ensures
        (final(nodes)@, final(rng)@) == shuffled(old(nodes)@, old(nodes)@.len() - 1, old(rng)@),
        final(nodes)@.len() == old(nodes)@.len(),
        forall|x: usize| #[trigger] final(nodes)@.contains(x) ==> old(nodes)@.contains(x),
{
    let ghost before = nodes@;
    let ghost s0 = rng@;
    let n: usize = nodes.len();
    if n == 0 {
        return ;
    }
    let mut i: usize = n - 1;
    while i > 0
        invariant
            n == nodes@.len(),
            n == before.len(),
            n > 0,
            i < n,
            shuffled(nodes@, i as int, rng@) == shuffled(before, n - 1, s0),
            forall|x: usize| #[trigger] nodes@.contains(x) ==> before.contains(x),
        decreases i,
    {
        let ghost now = nodes@;
        let j: usize = rng.gen_range(i + 1);
        let a: usize = nodes[i];
        let b: usize = nodes[j];
        nodes.set(i, b);
        nodes.set(j, a);
        assert forall|x: usize| #[trigger] nodes@.contains(x) implies before.contains(x) by {
            let k = choose|k: int| 0 <= k < nodes@.len() && nodes@[k] == x;
            assert(now.contains(now[i as int]) && now.contains(now[j as int]));
            if k != i && k != j {
                assert(now.contains(now[k]));
            }
        }
        i -= 1;
    }
}

/// The walks as sequences.
pub open spec fn plain_walks(walks: Seq<Vec<usize>>) -> Seq<Seq<usize>> {
    Seq::new(walks.len(), |i: int| walks[i]@)
}

/// Walks from every node, in `count` rounds.
pub fn generate_walks(
    rows: &Vec<Vec<(usize, u64)>>,
    p: u64,
    q: u64,
    length: usize,
    count: usize,
    rng: &mut FastRng,
) -> (r: Vec<Vec<usize>>)
    requires
        rows_sound(rows@),
    ensures
        rows@.len() == 0 ==> r@.len() == 0 && final(rng)@ == old(rng)@,
        rows@.len() > 0 ==> {
            let want = rounds(
                plain(rows@),
                WalkPlan { p, q, length: length as nat },
                count as nat,
                old(rng)@,
            );
            plain_walks(r@) == want.walks && final(rng)@ == want.state
        },
        forall|i: int, k: int|
            0 <= i < r@.len() && 0 <= k < r@[i]@.len() ==> #[trigger] r@[i]@[k] < rows@.len(),
{
    let n: usize = rows.len();
    let mut walks: Vec<Vec<usize>> = Vec::new();
    if n == 0 {
        return walks;
    }
    let ghost flat = plain(rows@);
    let ghost plan = WalkPlan { p, q, length: length as nat };
    let ghost s0 = rng@;
    let mut nodes: Vec<usize> = Vec::new();
    let mut i: usize = 0;
    while i < n
        invariant
            i <= n,
            nodes@.len() == i,
            forall|j: int| 0 <= j < i ==> #[trigger] nodes@[j] == j,
        decreases n - i,
    {
        nodes.push(i);
        i += 1;
    }
    assert(nodes@ =~= rounds(flat, plan, 0, s0).nodes);
    assert(plain_walks(walks@) =~= Seq::empty());
    assert forall|x: usize| #[trigger] nodes@.contains(x) implies x < n by {}
    let mut c: usize = 0;
    while c < count
        invariant
            c <= count,
            rows_sound(rows@),
            n == rows@.len(),
            n > 0,
            flat == plain(rows@),
            plan == (WalkPlan { p, q, length: length as nat }),
            nodes@.len() == n,
            nodes@ == rounds(flat, plan, c as nat, s0).nodes,
            plain_walks(walks@) == rounds(flat, plan, c as nat, s0).walks,
            rng@ == rounds(flat, plan, c as nat, s0).state,
            forall|x: usize| #[trigger] nodes@.contains(x) ==> x < n,
            forall|i: int, k: int|
                0 <= i < walks@.len() && 0 <= k < walks@[i]@.len() ==> #[trigger] walks@[i]@[k] < n,
        decreases count - c,
    {
        let ghost so_far = plain_walks(walks@);
        shuffle(&mut nodes, rng);
        let ghost s1 = rng@;
        let mut k: usize = 0;
        assert(nodes@.take(0) =~= Seq::empty());
        assert(so_far + walks_in_turn(flat, plan, nodes@.take(0), s1).0 =~= so_far);
        while k < nodes.len()
            invariant
                k <= nodes@.len(),
                rows_sound(rows@),
                n == rows@.len(),
                flat == plain(rows@),
                plan == (WalkPlan { p, q, length: length as nat }),
                nodes@.len() == n,
                forall|x: usize| #[trigger] nodes@.contains(x) ==> x < n,
                plain_walks(walks@) == so_far + walks_in_turn(
                    flat,
                    plan,
                    nodes@.take(k as int),
                    s1,
                ).0,
                rng@ == walks_in_turn(flat, plan, nodes@.take(k as int), s1).1,
                forall|i: int, k: int|
                    0 <= i < walks@.len() && 0 <= k < walks@[i]@.len() ==> #[trigger] walks@[i]@[k]
                        < n,
            decreases nodes@.len() - k,
        {
            let ghost before = walks@;
            let start: usize = nodes[k];
            assert(nodes@.contains(nodes@[k as int]));
            let walk = node2vec_walk(rows, p, q, length, start, rng);
            walks.push(walk);
            k += 1;
            proof {
                assert(nodes@.take(k as int).drop_last() =~= nodes@.take(k - 1));
                assert(plain_walks(walks@) =~= plain_walks(before).push(walk@));
                let some = walks_in_turn(flat, plan, nodes@.take(k - 1), s1).0;
                assert((so_far + some).push(walk@) =~= so_far + some.push(walk@));
                assert forall|i: int, k: int|
                    0 <= i < walks@.len() && 0 <= k < walks@[i]@.len() implies #[trigger] walks@[i]@[k]
                    < n by {
                    if i < before.len() {
                        assert(before[i]@[k] < n);
                    }
                }
            }
        }
        assert(nodes@.take(k as int) =~= nodes@);
        c += 1;
    }
    walks
}

/// Where walks begin.
pub open spec fn starts(walks: Seq<Seq<usize>>) -> Seq<usize> {
    Seq::new(walks.len(), |i: int| walks[i][0])
}

/// Shuffling neither adds nor drops a node.
pub proof fn shuffle_keeps_nodes(nodes: Seq<usize>, i: int, s: RngState)
    requires
        i < nodes.len(),
    ensures
        shuffled(nodes, i, s).0.to_multiset() == nodes.to_multiset(),
        shuffled(nodes, i, s).0.len() == nodes.len(),
    decreases i,
{
    if i > 0 {
        let draw = s.below((i + 1) as nat);
        let j = draw.0 as int;
        let one = nodes.update(i, nodes[j]);
        let two = one.update(j, nodes[i]);
        assert(two.to_multiset() =~= nodes.to_multiset()) by {
            broadcast use vstd::seq_lib::group_to_multiset_ensures;

            if i == j {
                assert(two =~= nodes);
            } else {
                assert(one[j] == nodes[j]);
                assert(nodes.contains(nodes[i]) && nodes.contains(nodes[j]));
                assert(one.contains(one[j]));
                assert(one.to_multiset() =~= nodes.to_multiset().insert(nodes[j]).remove(nodes[i]));
                assert(two.to_multiset() =~= one.to_multiset().insert(nodes[i]).remove(nodes[j]));
            }
        }
        shuffle_keeps_nodes(two, i - 1, draw.1);
    }
}

proof fn lemma_turn_starts(
    rows: Seq<Vec<(usize, u64)>>,
    plan: WalkPlan,
    nodes: Seq<usize>,
    s: RngState,
)
    requires
        rows_sound(rows),
        forall|k: int| 0 <= k < nodes.len() ==> #[trigger] nodes[k] < rows.len(),
    ensures
        starts(walks_in_turn(plain(rows), plan, nodes, s).0) == nodes,
    decreases nodes.len(),
{
    let r = walks_in_turn(plain(rows), plan, nodes, s).0;
    if nodes.len() > 0 {
        let rest = nodes.drop_last();
        lemma_turn_starts(rows, plan, rest, s);
        let (some, s1) = walks_in_turn(plain(rows), plan, rest, s);
        assert(nodes[nodes.len() - 1] < rows.len());
        walk_follows_links(rows, plan, nodes.last(), s1);
        assert(starts(r) =~= starts(some).push(nodes.last()));
        assert(nodes =~= rest.push(nodes.last()));
    } else {
        assert(starts(r) =~= nodes);
    }
}

/// Every node starts one walk in each round.
pub proof fn every_node_starts_its_walks(
    rows: Seq<Vec<(usize, u64)>>,
    plan: WalkPlan,
    count: nat,
    s: RngState,
)
    requires
        rows_sound(rows),
        rows.len() <= usize::MAX,
    ensures
        ({
            let walks = rounds(plain(rows), plan, count, s).walks;
            &&& walks.len() == count * rows.len()
            &&& forall|x: usize|
                x < rows.len() ==> #[trigger] starts(walks).to_multiset().count(x) == count
        }),
{
    lemma_rounds(rows, plan, count, s);
}

proof fn lemma_rounds(rows: Seq<Vec<(usize, u64)>>, plan: WalkPlan, count: nat, s: RngState)
    requires
        rows_sound(rows),
        rows.len() <= usize::MAX,
    ensures
        ({
            let r = rounds(plain(rows), plan, count, s);
            &&& r.nodes.to_multiset() == Seq::new(rows.len(), |i: int| i as usize).to_multiset()
            &&& r.nodes.len() == rows.len()
            &&& r.walks.len() == count * rows.len()
            &&& forall|x: usize|
                x < rows.len() ==> #[trigger] starts(r.walks).to_multiset().count(x) == count
        }),
    decreases count,
{
    let base = Seq::new(rows.len(), |i: int| i as usize);
    let r = rounds(plain(rows), plan, count, s);
    broadcast use vstd::seq_lib::group_to_multiset_ensures;

    if count == 0 {
        assert(r.nodes =~= base);
        assert(starts(r.walks) =~= Seq::<usize>::empty());
        assert(count * rows.len() == 0) by (nonlinear_arith)
            requires
                count == 0,
        ;
    } else {
        let before = rounds(plain(rows), plan, (count - 1) as nat, s);
        lemma_rounds(rows, plan, (count - 1) as nat, s);
        let n = rows.len() as int;
        if n == 0 {
            assert(shuffled(before.nodes, n - 1, before.state).0 =~= before.nodes);
        } else {
            shuffle_keeps_nodes(before.nodes, n - 1, before.state);
        }
        let (nodes, s1) = shuffled(before.nodes, n - 1, before.state);
        assert(nodes.to_multiset() == base.to_multiset());
        assert forall|k: int| 0 <= k < nodes.len() implies #[trigger] nodes[k] < n by {
            assert(nodes.contains(nodes[k]));
            assert(base.to_multiset().count(nodes[k]) > 0);
            assert(base.contains(nodes[k]));
        }
        lemma_turn_starts(rows, plan, nodes, s1);
        let walks = walks_in_turn(plain(rows), plan, nodes, s1).0;
        assert(starts(walks).len() == walks.len());
        assert(starts(r.walks) =~= starts(before.walks) + nodes);
        vstd::seq_lib::lemma_multiset_commutative(starts(before.walks), nodes);
        assert(base.no_duplicates());
        base.lemma_multiset_has_no_duplicates();
        assert forall|x: usize| x < n implies #[trigger] starts(r.walks).to_multiset().count(x)
            == count by {
            assert(base[x as int] == x);
            assert(base.contains(x));
            assert(base.to_multiset().contains(x));
            assert(starts(before.walks).to_multiset().count(x) == count - 1);
        }
        assert((count - 1) * n + n == count * n) by (nonlinear_arith);
    }
}

/// A drawn share falls on the first place up to which the weights make it up: the
/// weights up to that place do, unless it is the last, and those before it do not.
pub proof fn share_falls_on_the_first_place(weights: Seq<nat>, share: nat, i: int)
    requires
        0 <= i < weights.len(),
        i > 0 ==> share * sum_of(weights) > sum_of(weights.take(i)) * 0x100_0000,
    ensures
        i <= picked_from(weights, share, i) < weights.len(),
        picked_from(weights, share, i) < weights.len() - 1 ==> share * sum_of(weights) <= sum_of(
            weights.take(picked_from(weights, share, i) + 1),
        ) * 0x100_0000,
        picked_from(weights, share, i) > 0 ==> share * sum_of(weights) > sum_of(
            weights.take(picked_from(weights, share, i)),
        ) * 0x100_0000,
    decreases weights.len() - i,
{
    if !(i >= weights.len() - 1 || share * sum_of(weights) <= sum_of(weights.take(i + 1))
        * 0x100_0000) {
        share_falls_on_the_first_place(weights, share, i + 1);
    }
}

/// A step to a neighbour of the node before is favoured by one; a step back by one over
/// `p`, and a step away by one over `q`, neither of which counts as less than ten
/// millionths.
pub proof fn steps_are_favoured_by_p_and_q(
    prev_row: Seq<(usize, u64)>,
    prev: usize,
    near: usize,
    far: usize,
    p: u64,
    q: u64,
)
    requires
        near != prev,
        weight_in(prev_row, near as int) > 0,
        far != prev,
        weight_in(prev_row, far as int) == 0,
    ensures
        favour(prev_row, prev, near, p, q) > 0,
        p >= 10 ==> favour(prev_row, prev, prev, p, q) * p == favour(prev_row, prev, near, p, q)
            * 1_000_000,
        q >= 10 ==> favour(prev_row, prev, far, p, q) * q == favour(prev_row, prev, near, p, q)
            * 1_000_000,
        p < 10 ==> favour(prev_row, prev, prev, p, q) == favour(prev_row, prev, prev, 10, q),
        q < 10 ==> favour(prev_row, prev, far, p, q) == favour(prev_row, prev, far, p, 10),
{
    let (a, b) = (floored(p), floored(q));
    assert(a * b > 0) by (nonlinear_arith)
        requires
            a > 0,
            b > 0,
    ;
    assert((1_000_000 * b) * a == (a * b) * 1_000_000) by (nonlinear_arith);
    assert((1_000_000 * a) * b == (a * b) * 1_000_000) by (nonlinear_arith);
}

/// A walk begins where it starts, is no longer than planned, and ends early only at a
/// node without neighbours.
pub proof fn walks_go_as_far_as_they_can(
    rows: Seq<Seq<(usize, u64)>>,
    plan: WalkPlan,
    start: usize,
    s: RngState,
)
    ensures
        ({
            let w = walked(rows, plan, start, s).0;
            &&& w.len() >= 1
            &&& w[0] == start
            &&& w.len() <= plan.length || w.len() == 1
            &&& w.len() < plan.length ==> rows[w[w.len() - 1] as int].len() == 0
        }),
{
    if !(plan.length <= 1 || rows[start as int].len() == 0) {
        let step = stepped(rows[start as int], plain_weights(rows[start as int]), s);
        lemma_walked_far(rows, plan, seq![start, step.0], step.1);
    }
}

proof fn lemma_walked_far(
    rows: Seq<Seq<(usize, u64)>>,
    plan: WalkPlan,
    walk: Seq<usize>,
    s: RngState,
)
    requires
        walk.len() >= 2,
        walk.len() <= plan.length,
    ensures
        ({
            let w = walked_on(rows, plan, walk, s).0;
            &&& walk.len() <= w.len() <= plan.length
            &&& w[0] == walk[0]
            &&& w.len() < plan.length ==> rows[w[w.len() - 1] as int].len() == 0
        }),
    decreases plan.length - walk.len(),
{
    let curr = walk.last();
    let prev = walk[walk.len() - 2];
    if !(walk.len() >= plan.length || rows[curr as int].len() == 0) {
        let step = stepped(
            rows[curr as int],
            biased_weights(rows[curr as int], rows[prev as int], prev, plan.p, plan.q),
            s,
        );
        lemma_walked_far(rows, plan, walk.push(step.0), step.1);
    }
}

} // verus!
