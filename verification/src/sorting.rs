//! Stable sorting by a strict order.

use crate::picking::lemma_pick_push;
use crate::text::views;
use crate::trails::first_of;
use vstd::prelude::*;

verus! {

/// The sorted sequence with `x` put behind everything that it does not precede.
pub open spec fn insert_in<T>(s: Seq<T>, x: T, lt: spec_fn(T, T) -> bool) -> Seq<T>
    decreases s.len(),
{
    if s.len() == 0 || !lt(x, s.last()) {
        s.push(x)
    } else {
        insert_in(s.drop_last(), x, lt).push(s.last())
    }
}

/// The sequence in the order of `lt`; what `lt` does not part keeps its order.
pub open spec fn sorted_by<T>(s: Seq<T>, lt: spec_fn(T, T) -> bool) -> Seq<T>
    decreases s.len(),
{
    if s.len() == 0 {
        Seq::empty()
    } else {
        insert_in(sorted_by(s.drop_last(), lt), s.last(), lt)
    }
}

/// No element precedes one that stands before it.
pub open spec fn in_order<T>(s: Seq<T>, lt: spec_fn(T, T) -> bool) -> bool {
    forall|i: int, j: int| 0 <= i < j < s.len() ==> !lt(#[trigger] s[j], #[trigger] s[i])
}

/// A strict order in which what lies between comparable things is comparable:
/// irreflexive, transitive, and so is its absence.
pub open spec fn is_weak_order<T>(lt: spec_fn(T, T) -> bool) -> bool {
    &&& forall|a: T| !#[trigger] lt(a, a)
    &&& forall|a: T, b: T, c: T| #[trigger] lt(a, b) && #[trigger] lt(b, c) ==> lt(a, c)
    &&& forall|a: T, b: T, c: T|
        !#[trigger] lt(a, b) && !#[trigger] lt(b, c) ==> !lt(a, c)
}

proof fn lemma_insert_multiset<T>(s: Seq<T>, x: T, lt: spec_fn(T, T) -> bool)
    ensures
        insert_in(s, x, lt).to_multiset() == s.to_multiset().insert(x),
        insert_in(s, x, lt).len() == s.len() + 1,
    decreases s.len(),
{
    broadcast use vstd::seq_lib::group_to_multiset_ensures;

    if s.len() == 0 || !lt(x, s.last()) {
    } else {
        lemma_insert_multiset(s.drop_last(), x, lt);
        assert(s =~= s.drop_last().push(s.last()));
        assert(insert_in(s, x, lt).to_multiset() =~= s.to_multiset().insert(x));
    }
}

/// Sorting neither adds nor drops anything.
pub proof fn sorted_keeps_items<T>(s: Seq<T>, lt: spec_fn(T, T) -> bool)
    ensures
        sorted_by(s, lt).to_multiset() == s.to_multiset(),
        sorted_by(s, lt).len() == s.len(),
    decreases s.len(),
{
    broadcast use vstd::seq_lib::group_to_multiset_ensures;

    if s.len() > 0 {
        sorted_keeps_items(s.drop_last(), lt);
        lemma_insert_multiset(sorted_by(s.drop_last(), lt), s.last(), lt);
        assert(s =~= s.drop_last().push(s.last()));
    } else {
        assert(sorted_by(s, lt) =~= s);
    }
}

/// The same things are in the sorted sequence as in the sequence.
pub proof fn lemma_sorted_members<T>(s: Seq<T>, lt: spec_fn(T, T) -> bool)
    ensures
        sorted_by(s, lt).len() == s.len(),
        forall|i: int| 0 <= i < s.len() ==> s.contains(#[trigger] sorted_by(s, lt)[i]),
        forall|i: int| 0 <= i < s.len() ==> sorted_by(s, lt).contains(#[trigger] s[i]),
{
    sorted_keeps_items(s, lt);
    let t = sorted_by(s, lt);
    broadcast use vstd::seq_lib::group_to_multiset_ensures;

    assert forall|i: int| 0 <= i < s.len() implies s.contains(#[trigger] t[i]) by {
        assert(t.contains(t[i]));
        assert(t.to_multiset().count(t[i]) > 0);
    }
    assert forall|i: int| 0 <= i < s.len() implies t.contains(#[trigger] s[i]) by {
        assert(s.contains(s[i]));
        assert(s.to_multiset().count(s[i]) > 0);
    }
}

proof fn lemma_insert_member<T>(s: Seq<T>, x: T, lt: spec_fn(T, T) -> bool, k: int)
    requires
        0 <= k < insert_in(s, x, lt).len(),
    ensures
        insert_in(s, x, lt)[k] == x || s.contains(insert_in(s, x, lt)[k]),
    decreases s.len(),
{
    if s.len() == 0 || !lt(x, s.last()) {
        if k < s.len() {
            assert(s[k] == insert_in(s, x, lt)[k]);
        }
    } else {
        lemma_insert_multiset(s.drop_last(), x, lt);
        if k == s.len() {
            assert(s[s.len() - 1] == s.last());
        } else {
            lemma_insert_member(s.drop_last(), x, lt, k);
            let y = insert_in(s.drop_last(), x, lt)[k];
            if y != x {
                let j = choose|j: int| 0 <= j < s.drop_last().len() && s.drop_last()[j] == y;
                assert(s[j] == y);
            }
        }
    }
}

proof fn lemma_insert_in_order<T>(s: Seq<T>, x: T, lt: spec_fn(T, T) -> bool)
    requires
        is_weak_order(lt),
        in_order(s, lt),
    ensures
        in_order(insert_in(s, x, lt), lt),
    decreases s.len(),
{
    lemma_insert_multiset(s, x, lt);
    let r = insert_in(s, x, lt);
    if s.len() == 0 || !lt(x, s.last()) {
        assert forall|i: int, j: int| 0 <= i < j < r.len() implies !lt(
            #[trigger] r[j],
            #[trigger] r[i],
        ) by {
            if j == s.len() && i < s.len() - 1 {
                assert(!lt(s[s.len() - 1], s[i]));
            }
        }
    } else {
        lemma_insert_in_order(s.drop_last(), x, lt);
        lemma_insert_multiset(s.drop_last(), x, lt);
        assert forall|i: int, j: int| 0 <= i < j < r.len() implies !lt(
            #[trigger] r[j],
            #[trigger] r[i],
        ) by {
            let t = insert_in(s.drop_last(), x, lt);
            if j == s.len() {
                lemma_insert_member(s.drop_last(), x, lt, i);
                if t[i] == x {
                    if lt(s.last(), x) {
                        assert(lt(x, x));
                    }
                } else {
                    let k = choose|k: int|
                        0 <= k < s.drop_last().len() && s.drop_last()[k] == t[i];
                    assert(s[k] == t[i]);
                }
            } else {
                assert(r[i] == t[i] && r[j] == t[j]);
            }
        }
    }
}

/// Sorting by a weak order puts the items in order.
pub proof fn sorted_is_in_order<T>(s: Seq<T>, lt: spec_fn(T, T) -> bool)
    requires
        is_weak_order(lt),
    ensures
        in_order(sorted_by(s, lt), lt),
    decreases s.len(),
{
    if s.len() > 0 {
        sorted_is_in_order(s.drop_last(), lt);
        lemma_insert_in_order(sorted_by(s.drop_last(), lt), s.last(), lt);
    }
}

proof fn lemma_insert_keeps_order_of_equals<T>(
    s: Seq<T>,
    x: T,
    lt: spec_fn(T, T) -> bool,
    p: spec_fn(T) -> bool,
)
    requires
        forall|a: T, b: T| p(a) && p(b) ==> !#[trigger] lt(a, b),
    ensures
        insert_in(s, x, lt).filter(p) == s.push(x).filter(p),
    decreases s.len(),
{
    lemma_pick_push(s, x, p);
    if s.len() > 0 && lt(x, s.last()) {
        lemma_insert_keeps_order_of_equals(s.drop_last(), x, lt, p);
        lemma_pick_push(s.drop_last(), x, p);
        lemma_pick_push(s.drop_last(), s.last(), p);
        lemma_pick_push(insert_in(s.drop_last(), x, lt), s.last(), p);
        assert(s.drop_last().push(s.last()) =~= s);
    }
}

/// Sorting keeps the order of items of which none precedes another.
pub proof fn sorting_keeps_order_of_equals<T>(
    s: Seq<T>,
    lt: spec_fn(T, T) -> bool,
    p: spec_fn(T) -> bool,
)
    requires
        forall|a: T, b: T| p(a) && p(b) ==> !#[trigger] lt(a, b),
    ensures
        sorted_by(s, lt).filter(p) == s.filter(p),
    decreases s.len(),
{
    if s.len() > 0 {
        let rest = s.drop_last();
        sorting_keeps_order_of_equals(rest, lt, p);
        lemma_insert_keeps_order_of_equals(sorted_by(rest, lt), s.last(), lt, p);
        lemma_pick_push(sorted_by(rest, lt), s.last(), p);
        lemma_pick_push(rest, s.last(), p);
        assert(rest.push(s.last()) =~= s);
    } else {
        assert(sorted_by(s, lt) =~= s);
    }
}

/// The first items of a sorted sequence: as many as asked for or all there are, in
/// order, each one of the sequence, and nothing left out precedes one of them.
pub proof fn first_sorted_are_the_least<T>(s: Seq<T>, lt: spec_fn(T, T) -> bool, n: nat)
    requires
        is_weak_order(lt),
    ensures
        first_of(sorted_by(s, lt), n).len() <= n,
        first_of(sorted_by(s, lt), n).len() == n || first_of(sorted_by(s, lt), n).len() == s.len(),
        first_of(sorted_by(s, lt), n).len() <= s.len(),
        in_order(first_of(sorted_by(s, lt), n), lt),
        forall|i: int|
            0 <= i < first_of(sorted_by(s, lt), n).len() ==> s.contains(
                #[trigger] first_of(sorted_by(s, lt), n)[i],
            ),
        forall|k: int, i: int|
            0 <= k < s.len() && 0 <= i < first_of(sorted_by(s, lt), n).len() && !first_of(
                sorted_by(s, lt),
                n,
            ).contains(s[k]) ==> !lt(
                #[trigger] s[k],
                #[trigger] first_of(sorted_by(s, lt), n)[i],
            ),
        forall|k: int|
            0 <= k < s.len() && !#[trigger] first_of(sorted_by(s, lt), n).contains(s[k])
                ==> first_of(sorted_by(s, lt), n).len() == n,
{
    let t = sorted_by(s, lt);
    let r = first_of(t, n);
    sorted_is_in_order(s, lt);
    lemma_sorted_members(s, lt);
    assert forall|i: int, j: int| 0 <= i < j < r.len() implies !lt(
        #[trigger] r[j],
        #[trigger] r[i],
    ) by {
        assert(r[i] == t[i] && r[j] == t[j]);
    }
    assert forall|i: int| 0 <= i < r.len() implies s.contains(#[trigger] r[i]) by {
        assert(r[i] == t[i]);
    }
    assert forall|k: int, i: int|
        0 <= k < s.len() && 0 <= i < r.len() && !r.contains(s[k]) implies !lt(
        #[trigger] s[k],
        #[trigger] r[i],
    ) by {
        assert(t.contains(s[k]));
        let q = choose|q: int| 0 <= q < t.len() && t[q] == s[k];
        if q < r.len() {
            assert(r[q] == s[k]);
        }
        assert(r[i] == t[i]);
    }
    assert forall|k: int| 0 <= k < s.len() && !#[trigger] r.contains(s[k]) implies r.len() == n by {
        assert(t.contains(s[k]));
    }
}

/// Sorting items of which no two are the same gives items of which no two are.
pub proof fn sorted_differ<T>(s: Seq<T>, lt: spec_fn(T, T) -> bool)
    requires
        s.no_duplicates(),
    ensures
        sorted_by(s, lt).no_duplicates(),
{
    sorted_keeps_items(s, lt);
    s.lemma_multiset_has_no_duplicates();
    sorted_by(s, lt).lemma_multiset_has_no_duplicates_conv();
}

proof fn lemma_insert_views<T: View>(
    s: Seq<T>,
    x: T,
    lt: spec_fn(T, T) -> bool,
    lt_view: spec_fn(T::V, T::V) -> bool,
)
    requires
        forall|a: T, b: T| #[trigger] lt(a, b) == lt_view(a@, b@),
    ensures
        views(insert_in(s, x, lt)) == insert_in(views(s), x@, lt_view),
    decreases s.len(),
{
    if s.len() == 0 || !lt(x, s.last()) {
        assert(views(s.push(x)) =~= views(s).push(x@));
    } else {
        lemma_insert_views(s.drop_last(), x, lt, lt_view);
        assert(views(s).drop_last() =~= views(s.drop_last()));
        let t = insert_in(s.drop_last(), x, lt);
        assert(views(t.push(s.last())) =~= views(t).push(s.last()@));
    }
}

/// Where the order only looks at the views, the views are sorted too.
pub proof fn lemma_sorted_views<T: View>(
    s: Seq<T>,
    lt: spec_fn(T, T) -> bool,
    lt_view: spec_fn(T::V, T::V) -> bool,
)
    requires
        forall|a: T, b: T| #[trigger] lt(a, b) == lt_view(a@, b@),
    ensures
        views(sorted_by(s, lt)) == sorted_by(views(s), lt_view),
    decreases s.len(),
{
    if s.len() == 0 {
        assert(views(sorted_by(s, lt)) =~= sorted_by(views(s), lt_view));
    } else {
        lemma_sorted_views(s.drop_last(), lt, lt_view);
        assert(views(s).drop_last() =~= views(s.drop_last()));
        lemma_insert_views(sorted_by(s.drop_last(), lt), s.last(), lt, lt_view);
    }
}

proof fn lemma_insert_position<T>(s: Seq<T>, x: T, lt: spec_fn(T, T) -> bool, k: int)
    requires
        0 <= k <= s.len(),
        forall|j: int| k <= j < s.len() ==> lt(x, #[trigger] s[j]),
        k > 0 ==> !lt(x, s[k - 1]),
    ensures
        insert_in(s, x, lt) == s.insert(k, x),
    decreases s.len(),
{
    if k == s.len() {
        assert(s.insert(k, x) =~= s.push(x));
    } else {
        lemma_insert_position(s.drop_last(), x, lt, k);
        assert(s.insert(k, x) =~= s.drop_last().insert(k, x).push(s.last()));
    }
}

/// Sorts by the order that `less` decides.
pub(crate) fn sort_by<T, F: Fn(&T, &T) -> bool>(
    items: Vec<T>,
    less: F,
    Ghost(lt): Ghost<spec_fn(T, T) -> bool>,
) -> (r: Vec<T>)
    requires
        forall|a: &T, b: &T| less.requires((a, b)),
        forall|a: &T, b: &T, res: bool| less.ensures((a, b), res) ==> res == lt(*a, *b),
    ensures
        r@ == sorted_by(items@, lt),
{
    let mut out: Vec<T> = Vec::new();
    let ghost all = items@;
    for x in it: items
        invariant
            it.seq() == all,
            out@ == sorted_by(all.take(it.index() as int), lt),
            forall|a: &T, b: &T| less.requires((a, b)),
            forall|a: &T, b: &T, res: bool| less.ensures((a, b), res) ==> res == lt(*a, *b),
    {
        let ghost n = it.index() as int;
        assert(all.take(n + 1).drop_last() =~= all.take(n));
        let mut k: usize = out.len();
        while k > 0 && less(&x, &out[k - 1])
            invariant
                k <= out@.len(),
                forall|a: &T, b: &T| less.requires((a, b)),
                forall|a: &T, b: &T, res: bool| less.ensures((a, b), res) ==> res == lt(*a, *b),
                forall|j: int| k <= j < out@.len() ==> lt(x, #[trigger] out@[j]),
            ensures
                k <= out@.len(),
                forall|j: int| k <= j < out@.len() ==> lt(x, #[trigger] out@[j]),
                k > 0 ==> !lt(x, out@[k - 1]),
            decreases k,
        {
            k -= 1;
        }
        proof {
            lemma_insert_position(out@, x, lt, k as int);
        }
        out.insert(k, x);
    }
    assert(all.take(all.len() as int) =~= all);
    out
}

} // verus!
