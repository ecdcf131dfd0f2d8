//! Putting things in order, without disturbing what is equal.

use crate::table;
use crate::text;
use vstd::prelude::*;

verus! {

/// Something that can be put in order.
pub trait Ranked: Sized {
    /// Whether `self` belongs before `other`. Neither before the other means that
    /// either order will do.
    spec fn precedes(&self, other: &Self) -> bool;

    fn ahead_of(&self, other: &Self) -> (r: bool)
        ensures
            r == self.precedes(other),
    ;

    /// Of two, at most one comes first.
    proof fn lemma_asymmetric(a: &Self, b: &Self)
        ensures
            a.precedes(b) ==> !b.precedes(a),
    ;

    /// Where neither step goes up, the two together do not either.
    proof fn lemma_steps(a: &Self, b: &Self, c: &Self)
        ensures
            !a.precedes(b) && !b.precedes(c) ==> !a.precedes(c),
    ;
}

/// `x` put where it belongs in a row that is in order: after everything it does not
/// come before.
pub open spec fn placed<T: Ranked>(s: Seq<T>, x: T) -> Seq<T>
    decreases s.len(),
{
    if s.len() == 0 || !x.precedes(&s.last()) {
        s.push(x)
    } else {
        placed(s.drop_last(), x).push(s.last())
    }
}

/// A row put in order. What is equal stays in the order it was in.
pub open spec fn in_order<T: Ranked>(s: Seq<T>) -> Seq<T>
    decreases s.len(),
{
    if s.len() == 0 {
        Seq::empty()
    } else {
        placed(in_order(s.drop_last()), s.last())
    }
}

/// Nothing stands behind something it belongs before.
pub open spec fn is_sorted<T: Ranked>(s: Seq<T>) -> bool {
    forall|i: int, j: int|
        #![trigger s[i], s[j]]
        0 <= i < j < s.len() ==> !s[j].precedes(&s[i])
}

proof fn lemma_placed_at<T: Ranked>(s: Seq<T>, x: T, k: int)
    requires
        0 <= k <= s.len(),
        forall|i: int| k <= i < s.len() ==> x.precedes(&(#[trigger] s[i])),
        k > 0 ==> !x.precedes(&s[k - 1]),
    ensures
        placed(s, x) == s.insert(k, x),
    decreases s.len(),
{
    if k == s.len() {
        assert(s.insert(k, x) == s.push(x));
    } else {
        let t = s.drop_last();
        assert(s.last() == s[s.len() - 1]);
        assert forall|i: int| k <= i < t.len() implies x.precedes(&(#[trigger] t[i])) by {
            assert(t[i] == s[i]);
        }
        lemma_placed_at(t, x, k);
        assert(t.insert(k, x).push(s.last()) == s.insert(k, x));
    }
}

/// Put a list in order.
pub fn sort<T: Ranked>(v: Vec<T>) -> (r: Vec<T>)
    ensures
        r@ == in_order(v@),
{
    let ghost all = v@;
    let mut left = v;
    let mut out: Vec<T> = Vec::new();
    let ghost mut n: int = 0;
    assert(all.skip(0) == all);
    assert(all.take(0) == Seq::<T>::empty());
    while left.len() > 0
        invariant
            0 <= n <= all.len(),
            left@ == all.skip(n),
            out@ == in_order(all.take(n)),
        decreases left.len(),
    {
        let x = left.remove(0);
        proof {
            assert(x == all[n]);
            assert(left@ == all.skip(n + 1));
            assert(all.take(n + 1).drop_last() == all.take(n));
            assert(all.take(n + 1).last() == x);
        }
        let mut k: usize = out.len();
        while k > 0 && x.ahead_of(&out[k - 1])
            invariant
                k <= out.len(),
                forall|i: int| k <= i < out.len() ==> x.precedes(&(#[trigger] out@[i])),
            decreases k,
        {
            k = k - 1;
        }
        proof {
            lemma_placed_at(out@, x, k as int);
            n = n + 1;
        }
        out.insert(k, x);
    }
    assert(all.take(n) == all);
    out
}

proof fn lemma_placed<T: Ranked>(s: Seq<T>, x: T)
    requires
        is_sorted(s),
    ensures
        is_sorted(placed(s, x)),
        placed(s, x).to_multiset() == s.to_multiset().insert(x),
        placed(s, x).len() == s.len() + 1,
        forall|i: int|
            0 <= i < placed(s, x).len() ==> (#[trigger] placed(s, x)[i]) == x || s.contains(
                placed(s, x)[i],
            ),
    decreases s.len(),
{
    broadcast use vstd::seq_lib::group_to_multiset_ensures;

    let p = placed(s, x);
    if s.len() == 0 || !x.precedes(&s.last()) {
        assert forall|i: int, j: int|
            #![trigger p[i], p[j]]
            0 <= i < j < p.len() implies !p[j].precedes(&p[i]) by {
            if j == s.len() && i < s.len() - 1 {
                let last = s.len() - 1;
                assert(!s[last].precedes(&s[i]));
                T::lemma_steps(&x, &s[last], &s[i]);
            }
        }
        assert forall|i: int| 0 <= i < p.len() implies (#[trigger] p[i]) == x || s.contains(
            p[i],
        ) by {
            if i < s.len() {
                assert(p[i] == s[i]);
            }
        }
    } else {
        let t = s.drop_last();
        let last = s.last();
        assert forall|i: int, j: int|
            #![trigger t[i], t[j]]
            0 <= i < j < t.len() implies !t[j].precedes(&t[i]) by {
            assert(t[i] == s[i] && t[j] == s[j]);
        }
        lemma_placed(t, x);
        let q = placed(t, x);
        assert forall|i: int, j: int|
            #![trigger p[i], p[j]]
            0 <= i < j < p.len() implies !p[j].precedes(&p[i]) by {
            if j == q.len() {
                if q[i] == x {
                    T::lemma_asymmetric(&x, &last);
                } else {
                    let k = choose|k: int| 0 <= k < t.len() && t[k] == q[i];
                    assert(s[k] == q[i]);
                    assert(!s[s.len() - 1].precedes(&s[k]));
                }
            } else {
                assert(p[i] == q[i] && p[j] == q[j]);
            }
        }
        assert(s == t.push(last));
        assert(s.to_multiset() =~= t.to_multiset().insert(last));
        assert(p.to_multiset() =~= s.to_multiset().insert(x));
        assert forall|i: int| 0 <= i < p.len() implies (#[trigger] p[i]) == x || s.contains(
            p[i],
        ) by {
            if i < q.len() {
                assert(p[i] == q[i]);
                if q[i] != x {
                    let k = choose|k: int| 0 <= k < t.len() && t[k] == q[i];
                    assert(s[k] == p[i]);
                }
            } else {
                assert(p[i] == s[s.len() - 1]);
            }
        }
    }
}

/// Putting in order puts in order, and neither adds nor loses anything.
pub proof fn law_sorting_sorts<T: Ranked>(s: Seq<T>)
    ensures
        is_sorted(in_order(s)),
        in_order(s).to_multiset() == s.to_multiset(),
        in_order(s).len() == s.len(),
    decreases s.len(),
{
    broadcast use vstd::seq_lib::group_to_multiset_ensures;

    if s.len() == 0 {
        assert(in_order(s) =~= s);
    } else {
        let t = s.drop_last();
        law_sorting_sorts(t);
        lemma_placed(in_order(t), s.last());
        assert(s == t.push(s.last()));
        assert(s.to_multiset() =~= t.to_multiset().insert(s.last()));
    }
}

// ------------------------------------------------------------------------ by views

/// [`placed`], for anything there is a way to compare.
pub open spec fn placed_by<T>(s: Seq<T>, x: T, less: spec_fn(T, T) -> bool) -> Seq<T>
    decreases s.len(),
{
    if s.len() == 0 || !less(x, s.last()) {
        s.push(x)
    } else {
        placed_by(s.drop_last(), x, less).push(s.last())
    }
}

/// [`in_order`], for anything there is a way to compare.
pub open spec fn sorted_by<T>(s: Seq<T>, less: spec_fn(T, T) -> bool) -> Seq<T>
    decreases s.len(),
{
    if s.len() == 0 {
        Seq::empty()
    } else {
        placed_by(sorted_by(s.drop_last(), less), s.last(), less)
    }
}

proof fn lemma_placed_views<T: Ranked, U>(
    s: Seq<T>,
    x: T,
    f: spec_fn(T) -> U,
    less: spec_fn(U, U) -> bool,
)
    requires
        forall|a: T, b: T| #[trigger] a.precedes(&b) == less(f(a), f(b)),
    ensures
        placed(s, x).map_values(f) == placed_by(s.map_values(f), f(x), less),
    decreases s.len(),
{
    if s.len() == 0 || !x.precedes(&s.last()) {
        assert(s.push(x).map_values(f) == s.map_values(f).push(f(x)));
    } else {
        lemma_placed_views(s.drop_last(), x, f, less);
        assert(s.map_values(f).drop_last() == s.drop_last().map_values(f));
        assert(placed(s.drop_last(), x).push(s.last()).map_values(f) == placed(
            s.drop_last(),
            x,
        ).map_values(f).push(f(s.last())));
    }
}

/// Putting things in order and looking at them is looking at them and putting that in
/// order, where the order goes by what is seen.
pub proof fn lemma_sorted_views<T: Ranked, U>(
    s: Seq<T>,
    f: spec_fn(T) -> U,
    less: spec_fn(U, U) -> bool,
)
    requires
        forall|a: T, b: T| #[trigger] a.precedes(&b) == less(f(a), f(b)),
    ensures
        in_order(s).map_values(f) == sorted_by(s.map_values(f), less),
    decreases s.len(),
{
    if s.len() == 0 {
        assert(in_order(s).map_values(f) == sorted_by(s.map_values(f), less));
    } else {
        lemma_sorted_views(s.drop_last(), f, less);
        lemma_placed_views(in_order(s.drop_last()), s.last(), f, less);
        assert(s.map_values(f).drop_last() == s.drop_last().map_values(f));
    }
}

proof fn lemma_placed_by_multiset<T>(s: Seq<T>, x: T, less: spec_fn(T, T) -> bool)
    ensures
        placed_by(s, x, less).to_multiset() == s.to_multiset().insert(x),
        placed_by(s, x, less).len() == s.len() + 1,
    decreases s.len(),
{
    broadcast use vstd::seq_lib::group_to_multiset_ensures;

    if s.len() == 0 || !less(x, s.last()) {
    } else {
        lemma_placed_by_multiset(s.drop_last(), x, less);
        assert(s == s.drop_last().push(s.last()));
        assert(placed_by(s, x, less).to_multiset() =~= s.to_multiset().insert(x));
    }
}

/// Putting in order neither adds nor loses anything.
pub proof fn lemma_sorted_by_multiset<T>(s: Seq<T>, less: spec_fn(T, T) -> bool)
    ensures
        sorted_by(s, less).to_multiset() == s.to_multiset(),
        sorted_by(s, less).len() == s.len(),
    decreases s.len(),
{
    broadcast use vstd::seq_lib::group_to_multiset_ensures;

    if s.len() == 0 {
        assert(sorted_by(s, less) =~= s);
    } else {
        lemma_sorted_by_multiset(s.drop_last(), less);
        lemma_placed_by_multiset(sorted_by(s.drop_last(), less), s.last(), less);
        assert(s == s.drop_last().push(s.last()));
        assert(s.to_multiset() =~= s.drop_last().to_multiset().insert(s.last()));
    }
}

// -------------------------------------------------------------------------- names

impl Ranked for String {
    open spec fn precedes(&self, other: &Self) -> bool {
        table::before(self@, other@)
    }

    fn ahead_of(&self, other: &Self) -> (r: bool) {
        table::comes_before(self, other)
    }

    proof fn lemma_asymmetric(a: &Self, b: &Self) {
        if table::before(a@, b@) && table::before(b@, a@) {
            table::lemma_before_transitive(a@, b@, a@);
            table::lemma_before_irreflexive(a@);
        }
    }

    proof fn lemma_steps(a: &Self, b: &Self, c: &Self) {
        table::lemma_not_before(a@, b@, c@);
    }
}

pub open spec fn by_text() -> spec_fn(Seq<char>, Seq<char>) -> bool {
    |a: Seq<char>, b: Seq<char>| table::before(a, b)
}

/// Names in alphabetical order.
pub open spec fn alphabetical(names: Seq<Seq<char>>) -> Seq<Seq<char>> {
    sorted_by(names, by_text())
}

pub fn sort_names(names: Vec<String>) -> (r: Vec<String>)
    ensures
        text::views(r@) == alphabetical(text::views(names@)),
{
    let r = sort(names);
    proof {
        let f = |s: String| s@;
        lemma_sorted_views(names@, f, by_text());
        assert(names@.map_values(f) == text::views(names@));
        assert(r@.map_values(f) == text::views(r@));
    }
    r
}

/// Something to sort by: of two, at most one comes first, and not coming first goes on.
pub open spec fn is_ranking<T>(less: spec_fn(T, T) -> bool) -> bool {
    &&& forall|a: T, b: T| #[trigger] less(a, b) ==> !less(b, a)
    &&& forall|a: T, b: T, c: T|
        #![trigger less(a, b), less(b, c)]
        !less(a, b) && !less(b, c) ==> !less(a, c)
}

pub open spec fn stands_sorted<T>(s: Seq<T>, less: spec_fn(T, T) -> bool) -> bool {
    forall|i: int, j: int| 0 <= i < j < s.len() ==> !#[trigger] less(s[j], s[i])
}

proof fn lemma_placed_by<T>(s: Seq<T>, x: T, less: spec_fn(T, T) -> bool)
    requires
        is_ranking(less),
        stands_sorted(s, less),
    ensures
        stands_sorted(placed_by(s, x, less), less),
        placed_by(s, x, less).len() == s.len() + 1,
        forall|i: int|
            0 <= i < placed_by(s, x, less).len() ==> (#[trigger] placed_by(s, x, less)[i]) == x
                || s.contains(placed_by(s, x, less)[i]),
    decreases s.len(),
{
    let p = placed_by(s, x, less);
    if s.len() == 0 || !less(x, s.last()) {
        assert forall|i: int, j: int| 0 <= i < j < p.len() implies !#[trigger] less(p[j], p[i]) by {
            if j == s.len() {
                let last = s.len() - 1;
                if i < last {
                    assert(!less(s[last], s[i]));
                    assert(!less(x, s[last]));
                }
            } else {
                assert(!less(s[j], s[i]));
            }
        }
        assert forall|i: int| 0 <= i < p.len() implies (#[trigger] p[i]) == x || s.contains(p[i]) by {
            if i < s.len() {
                assert(p[i] == s[i]);
            }
        }
    } else {
        let t = s.drop_last();
        let last = s.last();
        assert forall|i: int, j: int| 0 <= i < j < t.len() implies !#[trigger] less(t[j], t[i]) by {
            assert(!less(s[j], s[i]));
        }
        lemma_placed_by(t, x, less);
        let q = placed_by(t, x, less);
        assert forall|i: int, j: int| 0 <= i < j < p.len() implies !#[trigger] less(p[j], p[i]) by {
            if j == q.len() {
                if q[i] == x {
                    assert(less(x, last));
                } else {
                    let k = choose|k: int| 0 <= k < t.len() && t[k] == q[i];
                    assert(!less(s[s.len() - 1], s[k]));
                }
            } else {
                assert(!less(q[j], q[i]));
            }
        }
        assert forall|i: int| 0 <= i < p.len() implies (#[trigger] p[i]) == x || s.contains(p[i]) by {
            if i < q.len() {
                assert(p[i] == q[i]);
                if q[i] != x {
                    let k = choose|k: int| 0 <= k < t.len() && t[k] == q[i];
                    assert(s[k] == p[i]);
                }
            } else {
                assert(p[i] == s[s.len() - 1]);
            }
        }
    }
}

/// Putting in order puts in order, and neither adds nor loses anything, whatever is
/// compared.
pub proof fn law_ordering_orders<T>(s: Seq<T>, less: spec_fn(T, T) -> bool)
    requires
        is_ranking(less),
    ensures
        stands_sorted(sorted_by(s, less), less),
        sorted_by(s, less).to_multiset() == s.to_multiset(),
        sorted_by(s, less).len() == s.len(),
    decreases s.len(),
{
    lemma_sorted_by_multiset(s, less);
    if s.len() > 0 {
        law_ordering_orders(s.drop_last(), less);
        lemma_placed_by(sorted_by(s.drop_last(), less), s.last(), less);
    }
}

/// Names in alphabetical order are the same names, each after the ones before it.
pub proof fn law_alphabetical_is_by_the_letters(names: Seq<Seq<char>>)
    ensures
        alphabetical(names).to_multiset() == names.to_multiset(),
        alphabetical(names).len() == names.len(),
        forall|i: int, j: int|
            0 <= i < j < names.len() ==> !#[trigger] table::before(
                alphabetical(names)[j],
                alphabetical(names)[i],
            ),
{
    let less = by_text();
    assert forall|a: Seq<char>, b: Seq<char>| #[trigger] less(a, b) implies !less(b, a) by {
        if table::before(b, a) {
            table::lemma_before_transitive(a, b, a);
            table::lemma_before_irreflexive(a);
        }
    }
    assert forall|a: Seq<char>, b: Seq<char>, c: Seq<char>|
        #![trigger less(a, b), less(b, c)]
        !less(a, b) && !less(b, c) implies !less(a, c) by {
        table::lemma_not_before(a, b, c);
    }
    law_ordering_orders(names, less);
    let out = alphabetical(names);
    assert forall|i: int, j: int| 0 <= i < j < names.len() implies !#[trigger] table::before(
        out[j],
        out[i],
    ) by {
        assert(!less(out[j], out[i]));
    }
}

} // verus!
