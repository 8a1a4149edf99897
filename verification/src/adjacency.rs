//! Undirected neighbourhoods with weights, gathered from directed links.

use vstd::prelude::*;

verus! {

/// The least weight of a link. Weights are in millionths, so this is a tenth.
pub const LEAST_WEIGHT: u64 = 100_000;

/// The weight that a row gives a node; zero where it does not list it.
pub open spec fn weight_in(row: Seq<(usize, u64)>, v: int) -> nat
    decreases row.len(),
{
    if row.len() == 0 {
        0
    } else if row.last().0 == v {
        row.last().1 as nat
    } else {
        weight_in(row.drop_last(), v)
    }
}

/// The nodes of a row rise.
pub open spec fn rising(row: Seq<(usize, u64)>) -> bool {
    forall|i: int, j: int| 0 <= i < j < row.len() ==> (#[trigger] row[i]).0 < (#[trigger] row[j]).0
}

/// The weights of a row together.
pub open spec fn row_sum(row: Seq<(usize, u64)>) -> nat
    decreases row.len(),
{
    if row.len() == 0 {
        0
    } else {
        row_sum(row.drop_last()) + row.last().1 as nat
    }
}

/// The weight of a link, at least the least.
pub open spec fn counted(w: u64) -> nat {
    if w < LEAST_WEIGHT {
        LEAST_WEIGHT as nat
    } else {
        w as nat
    }
}

/// What a link adds between two nodes, in either direction. A link of a node to
/// itself or to something that is no node adds nothing.
pub open spec fn share_of(e: (usize, usize, u64), n: int, u: int, v: int) -> nat {
    if e.0 < n && e.1 < n && e.0 != e.1 && ((e.0 == u && e.1 == v) || (e.0 == v && e.1 == u)) {
        counted(e.2)
    } else {
        0
    }
}

/// The weight of all links between two nodes.
pub open spec fn pair_weight(edges: Seq<(usize, usize, u64)>, n: int, u: int, v: int) -> nat
    decreases edges.len(),
{
    if edges.len() == 0 {
        0
    } else {
        pair_weight(edges.drop_last(), n, u, v) + share_of(edges.last(), n, u, v)
    }
}

/// The weight of all links.
pub open spec fn total_weight(edges: Seq<(usize, usize, u64)>) -> nat
    decreases edges.len(),
{
    if edges.len() == 0 {
        0
    } else {
        total_weight(edges.drop_last()) + counted(edges.last().2)
    }
}

/// A row lists nodes in rising order, each with some weight.
pub open spec fn row_sound(row: Seq<(usize, u64)>, n: int) -> bool {
    &&& rising(row)
    &&& forall|k: int| 0 <= k < row.len() ==> (#[trigger] row[k]).0 < n && row[k].1 >= 1
}

/// Rows that tell of every two nodes the same from both sides.
pub open spec fn rows_sound(rows: Seq<Vec<(usize, u64)>>) -> bool {
    &&& forall|i: int|
        0 <= i < rows.len() ==> row_sound((#[trigger] rows[i])@, rows.len() as int) && row_sum(
            rows[i]@,
        ) <= u64::MAX && weight_in(rows[i]@, i) == 0
    &&& forall|i: int, j: int|
        0 <= i < rows.len() && 0 <= j < rows.len() ==> #[trigger] weight_in(rows[i]@, j)
            == weight_in(rows[j]@, i)
}

/// What stands at a place of a row is the weight of the node there.
pub proof fn lemma_weight_at(row: Seq<(usize, u64)>, k: int)
    requires
        rising(row),
        0 <= k < row.len(),
    ensures
        weight_in(row, row[k].0 as int) == row[k].1,
    decreases row.len(),
{
    if k < row.len() - 1 {
        assert(row[k].0 < row[row.len() - 1].0);
        assert(row.drop_last()[k] == row[k]);
        lemma_weight_at(row.drop_last(), k);
    }
}

/// A node with a weight stands somewhere in the row.
pub proof fn lemma_weighted_is_listed(row: Seq<(usize, u64)>, v: int)
    requires
        weight_in(row, v) > 0,
    ensures
        exists|k: int| 0 <= k < row.len() && (#[trigger] row[k]).0 == v,
    decreases row.len(),
{
    if row.last().0 == v {
        assert(row[row.len() - 1].0 == v);
    } else {
        lemma_weighted_is_listed(row.drop_last(), v);
        let k = choose|k: int|
            0 <= k < row.drop_last().len() && (#[trigger] row.drop_last()[k]).0 == v;
        assert(row[k].0 == v);
    }
}

/// A node that stands nowhere in the row has no weight.
proof fn lemma_unlisted_weight(row: Seq<(usize, u64)>, v: int)
    requires
        forall|k: int| 0 <= k < row.len() ==> (#[trigger] row[k]).0 != v,
    ensures
        weight_in(row, v) == 0,
    decreases row.len(),
{
    if row.len() > 0 {
        assert(row[row.len() - 1].0 != v);
        assert forall|k: int| 0 <= k < row.drop_last().len() implies (
        #[trigger] row.drop_last()[k]).0 != v by {
            assert(row[k].0 != v);
        }
        lemma_unlisted_weight(row.drop_last(), v);
    }
}

proof fn lemma_row_raise(row: Seq<(usize, u64)>, k: int, w: u64)
    requires
        rising(row),
        0 <= k < row.len(),
        row[k].1 + w <= u64::MAX,
    ensures
        ({
            let more = row.update(k, (row[k].0, (row[k].1 + w) as u64));
            &&& row_sum(more) == row_sum(row) + w
            &&& forall|x: int| #[trigger]
                weight_in(more, x) == weight_in(row, x) + if x == row[k].0 {
                    w as int
                } else {
                    0
                }
        }),
    decreases row.len(),
{
    let more = row.update(k, (row[k].0, (row[k].1 + w) as u64));
    if k == row.len() - 1 {
        assert(more.drop_last() =~= row.drop_last());
    } else {
        let rest = row.drop_last();
        assert(rest[k] == row[k]);
        lemma_row_raise(rest, k, w);
        assert(more.drop_last() =~= rest.update(k, (rest[k].0, (rest[k].1 + w) as u64)));
        assert(row[k].0 < row[row.len() - 1].0);
        assert forall|x: int| #[trigger] weight_in(more, x) == weight_in(row, x) + if x == row[k].0 {
            w as int
        } else {
            0
        } by {
            assert(weight_in(more.drop_last(), x) == weight_in(rest, x) + if x == row[k].0 {
                w as int
            } else {
                0
            });
        }
    }
}

proof fn lemma_row_insert(row: Seq<(usize, u64)>, k: int, v: usize, w: u64)
    requires
        0 <= k <= row.len(),
        forall|j: int| 0 <= j < row.len() ==> (#[trigger] row[j]).0 != v,
    ensures
        row_sum(row.insert(k, (v, w))) == row_sum(row) + w,
        forall|x: int| #[trigger]
            weight_in(row.insert(k, (v, w)), x) == weight_in(row, x) + if x == v {
                w as int
            } else {
                0
            },
    decreases row.len(),
{
    let more = row.insert(k, (v, w));
    lemma_unlisted_weight(row, v as int);
    if k == row.len() {
        assert(more.drop_last() =~= row);
    } else {
        let rest = row.drop_last();
        assert forall|j: int| 0 <= j < rest.len() implies (#[trigger] rest[j]).0 != v by {
            assert(row[j].0 != v);
        }
        lemma_row_insert(rest, k, v, w);
        assert(more.drop_last() =~= rest.insert(k, (v, w)));
        assert(row[row.len() - 1].0 != v);
        assert forall|x: int| #[trigger] weight_in(more, x) == weight_in(row, x) + if x == v {
            w as int
        } else {
            0
        } by {
            assert(weight_in(rest.insert(k, (v, w)), x) == weight_in(rest, x) + if x == v {
                w as int
            } else {
                0
            });
        }
    }
}

proof fn lemma_sum_at(row: Seq<(usize, u64)>, k: int)
    requires
        0 <= k < row.len(),
    ensures
        row[k].1 <= row_sum(row),
    decreases row.len(),
{
    if k < row.len() - 1 {
        assert(row.drop_last()[k] == row[k]);
        lemma_sum_at(row.drop_last(), k);
    }
}

/// Adds to the weight of a node in a row.
fn add_weight(row: &mut Vec<(usize, u64)>, v: usize, w: u64, Ghost(n): Ghost<int>)
    requires
        row_sound(old(row)@, n),
        v < n,
        w >= 1,
        row_sum(old(row)@) + w <= u64::MAX,
    ensures
        row_sound(final(row)@, n),
        row_sum(final(row)@) == row_sum(old(row)@) + w,
        forall|x: int| #[trigger]
            weight_in(final(row)@, x) == weight_in(old(row)@, x) + if x == v {
                w as int
            } else {
                0
            },
{
    let ghost before = row@;
    let mut k: usize = 0;
    while k < row.len() && row[k].0 < v
        invariant
            k <= row@.len(),
            row@ == before,
            forall|j: int| 0 <= j < k ==> (#[trigger] row@[j]).0 < v,
        ensures
            k <= row@.len(),
            row@ == before,
            forall|j: int| 0 <= j < k ==> (#[trigger] row@[j]).0 < v,
            k < row@.len() ==> row@[k as int].0 >= v,
        decreases row@.len() - k,
    {
        k += 1;
    }
    if k < row.len() && row[k].0 == v {
        let was: u64 = row[k].1;
        proof {
            lemma_sum_at(before, k as int);
            lemma_row_raise(before, k as int, w);
        }
        row.set(k, (v, was + w));
        assert(row@ == before.update(k as int, (v, (was + w) as u64)));
        assert(rising(row@)) by {
            assert forall|i: int, j: int| 0 <= i < j < row@.len() implies (#[trigger] row@[i]).0 < (
            #[trigger] row@[j]).0 by {
                assert(before[i].0 < before[j].0);
            }
        }
        assert forall|i: int| 0 <= i < row@.len() implies (#[trigger] row@[i]).0 < n && row@[i].1
            >= 1 by {
            assert(before[i].0 < n && before[i].1 >= 1);
        }
    } else {
        proof {
            assert forall|j: int| 0 <= j < before.len() implies (#[trigger] before[j]).0 != v by {
                if j > k {
                    assert(before[k as int].0 < before[j].0);
                }
            }
            lemma_row_insert(before, k as int, v, w);
        }
        row.insert(k, (v, w));
        assert(rising(row@)) by {
            assert forall|i: int, j: int| 0 <= i < j < row@.len() implies (#[trigger] row@[i]).0 < (
            #[trigger] row@[j]).0 by {
                let b = |m: int| if m < k { m } else { m - 1 };
                if i == k {
                    assert(before[j - 1].0 >= before[k as int].0) by {
                        if j - 1 > k {
                            assert(before[k as int].0 < before[j - 1].0);
                        }
                    }
                } else if j == k {
                    assert(before[i].0 < v);
                } else {
                    assert(before[b(i)].0 < before[b(j)].0);
                }
            }
        }
        assert forall|i: int| 0 <= i < row@.len() implies (#[trigger] row@[i]).0 < n && row@[i].1
            >= 1 by {
            if i < k {
                assert(before[i].0 < n);
            } else if i > k {
                assert(before[i - 1].0 < n);
            }
        }
    }
}

/// The weight between two nodes is the same from both sides.
pub proof fn pair_weight_is_mutual(edges: Seq<(usize, usize, u64)>, n: int, u: int, v: int)
    ensures
        pair_weight(edges, n, u, v) == pair_weight(edges, n, v, u),
    decreases edges.len(),
{
    if edges.len() > 0 {
        pair_weight_is_mutual(edges.drop_last(), n, u, v);
    }
}

/// No node is its own neighbour.
pub proof fn no_weight_to_itself(edges: Seq<(usize, usize, u64)>, n: int, u: int)
    ensures
        pair_weight(edges, n, u, u) == 0,
    decreases edges.len(),
{
    if edges.len() > 0 {
        no_weight_to_itself(edges.drop_last(), n, u);
    }
}

proof fn lemma_total_rises(edges: Seq<(usize, usize, u64)>, k: int)
    requires
        0 <= k <= edges.len(),
    ensures
        total_weight(edges.take(k)) <= total_weight(edges),
    decreases edges.len(),
{
    if k < edges.len() {
        lemma_total_rises(edges.drop_last(), k);
        assert(edges.drop_last().take(k) =~= edges.take(k));
    } else {
        assert(edges.take(k) =~= edges);
    }
}

/// Gathers the links of `n` nodes into one row of neighbours for each.
pub fn gather(n: usize, edges: &Vec<(usize, usize, u64)>) -> (rows: Vec<Vec<(usize, u64)>>)
    requires
        total_weight(edges@) <= u64::MAX,
    ensures
        rows@.len() == n,
        rows_sound(rows@),
        forall|i: int, v: int|
            0 <= i < n ==> #[trigger] weight_in(rows@[i]@, v) == pair_weight(
                edges@,
                n as int,
                i,
                v,
            ),
{
    let mut rows: Vec<Vec<(usize, u64)>> = Vec::new();
    let mut i: usize = 0;
    while i < n
        invariant
            i <= n,
            rows@.len() == i,
            forall|j: int| 0 <= j < i ==> (#[trigger] rows@[j])@ == Seq::<(usize, u64)>::empty(),
        decreases n - i,
    {
        rows.push(Vec::new());
        i += 1;
    }
    let mut k: usize = 0;
    assert(edges@.take(0) =~= Seq::empty());
    while k < edges.len()
        invariant
            k <= edges@.len(),
            total_weight(edges@) <= u64::MAX,
            rows@.len() == n,
            forall|j: int|
                0 <= j < n ==> row_sound((#[trigger] rows@[j])@, n as int) && row_sum(rows@[j]@)
                    <= total_weight(edges@.take(k as int)),
            forall|j: int, v: int|
                0 <= j < n ==> #[trigger] weight_in(rows@[j]@, v) == pair_weight(
                    edges@.take(k as int),
                    n as int,
                    j,
                    v,
                ),
        decreases edges@.len() - k,
    {
        let e = edges[k];
        let ghost before = rows@;
        let ghost part = edges@.take(k as int);
        let ghost next = edges@.take(k + 1);
        proof {
            assert(next.drop_last() =~= part);
            assert(next.last() == e);
            lemma_total_rises(edges@, k + 1);
        }
        if e.0 < n && e.1 < n && e.0 != e.1 {
            let w: u64 = if e.2 < LEAST_WEIGHT {
                LEAST_WEIGHT
            } else {
                e.2
            };
            assert(w == counted(e.2));
            assert(row_sum(before[e.0 as int]@) <= total_weight(part));
            assert(row_sum(before[e.1 as int]@) <= total_weight(part));
            add_weight(&mut rows[e.0], e.1, w, Ghost(n as int));
            assert(rows@[e.1 as int] == before[e.1 as int]);
            add_weight(&mut rows[e.1], e.0, w, Ghost(n as int));
            assert forall|j: int| 0 <= j < n && j != e.0 && j != e.1 implies #[trigger] rows@[j]
                == before[j] by {}
        }
        proof {
            assert forall|j: int| 0 <= j < n implies row_sound((#[trigger] rows@[j])@, n as int)
                && row_sum(rows@[j]@) <= total_weight(next) by {
                assert(row_sum(before[j]@) <= total_weight(part));
            }
            assert forall|j: int, v: int| 0 <= j < n implies #[trigger] weight_in(rows@[j]@, v)
                == pair_weight(next, n as int, j, v) by {
                assert(weight_in(before[j]@, v) == pair_weight(part, n as int, j, v));
            }
        }
        k += 1;
    }
    assert(edges@.take(k as int) =~= edges@);
    proof {
        assert forall|i: int, j: int| 0 <= i < n && 0 <= j < n implies #[trigger] weight_in(
            rows@[i]@,
            j,
        ) == weight_in(rows@[j]@, i) by {
            pair_weight_is_mutual(edges@, n as int, i, j);
        }
        assert forall|i: int| 0 <= i < n implies weight_in((#[trigger] rows@[i])@, i) == 0 by {
            no_weight_to_itself(edges@, n as int, i);
        }
    }
    rows
}

/// Two nodes are tied by the weights of all links between them, in either direction; a
/// link that weighs little counts as a tenth.
pub proof fn links_between_two_nodes_add_up(
    edges: Seq<(usize, usize, u64)>,
    e: (usize, usize, u64),
    n: int,
    u: int,
    v: int,
)
    requires
        0 <= u < n,
        0 <= v < n,
        u != v,
    ensures
        (e.0 == u && e.1 == v) || (e.0 == v && e.1 == u) ==> pair_weight(edges.push(e), n, u, v)
            == pair_weight(edges, n, u, v) + (if e.2 < 100_000 {
            100_000
        } else {
            e.2 as int
        }),
        !(e.0 == u && e.1 == v) && !(e.0 == v && e.1 == u) ==> pair_weight(edges.push(e), n, u, v)
            == pair_weight(edges, n, u, v),
        pair_weight(Seq::<(usize, usize, u64)>::empty(), n, u, v) == 0,
{
    assert(edges.push(e).drop_last() =~= edges);
}

} // verus!
