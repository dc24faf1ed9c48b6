//! A total order on sort keys and a stable insertion sort by it.

use vstd::prelude::*;
use crate::bytes::{before, lemma_before_total, lemma_before_transitive};
use crate::model::views;

verus! {

/// What items are ordered by: a number, then a byte string, then a number.
pub struct SortKey {
    pub major: int,
    pub text: Seq<u8>,
    pub minor: int,
}

/// `x` comes strictly before `y`: by `major`, then by `text` in the
/// lexicographic order, then by `minor`.
pub open spec fn key_before(x: SortKey, y: SortKey) -> bool {
    x.major < y.major || (x.major == y.major && (before(x.text, y.text) || (x.text == y.text
        && x.minor < y.minor)))
}

/// The order of sort keys is total.
pub proof fn lemma_key_total(x: SortKey, y: SortKey)
    ensures
        key_before(x, y) || key_before(y, x) || x == y,
        !(key_before(x, y) && key_before(y, x)),
        !key_before(x, x),
{
    lemma_before_total(x.text, y.text);
    lemma_before_total(x.text, x.text);
}

/// The order of sort keys is transitive.
pub proof fn lemma_key_transitive(x: SortKey, y: SortKey, z: SortKey)
    requires
        key_before(x, y),
        key_before(y, z),
    ensures
        key_before(x, z),
{
    lemma_before_total(x.text, y.text);
    lemma_before_total(y.text, z.text);
    if before(x.text, y.text) && before(y.text, z.text) {
        lemma_before_transitive(x.text, y.text, z.text);
    }
}

/// `x` does not come after `y`.
pub open spec fn key_at_most(x: SortKey, y: SortKey) -> bool {
    !key_before(y, x)
}

/// Items that are ordered by a key of their view.
pub trait Ranked: View + Sized {
    /// The key of an item with the view `v`.
    spec fn key(v: Self::V) -> SortKey;

    /// Whether `self` comes strictly before `other`.
    fn ranks_before(&self, other: &Self) -> (r: bool)
        ensures
            r == key_before(Self::key(self@), Self::key(other@)),
    ;
}

/// The first index from `from` on whose item comes strictly after `x`, or
/// the length of `s` if there is none.
pub open spec fn slot<T: Ranked>(s: Seq<T::V>, x: T::V, from: int) -> int
    decreases s.len() - from,
{
    if from >= s.len() {
        s.len() as int
    } else if key_before(T::key(x), T::key(s[from])) {
        from
    } else {
        slot::<T>(s, x, from + 1)
    }
}

/// The items of `s` in ascending order of their keys, items with equal keys
/// in the order they have in `s`.
pub open spec fn sorted<T: Ranked>(s: Seq<T::V>) -> Seq<T::V>
    decreases s.len(),
{
    if s.len() == 0 {
        s
    } else {
        let rest = sorted::<T>(s.drop_last());
        rest.insert(slot::<T>(rest, s.last(), 0), s.last())
    }
}

/// No item of `s` comes strictly before an earlier one.
pub open spec fn ascending<T: Ranked>(s: Seq<T::V>) -> bool {
    forall|i: int, j: int| 0 <= i < j < s.len() ==> key_at_most(T::key(s[i]), T::key(s[j]))
}

/// The slot of `x` stands after every item that does not come after `x`
/// and before every item that does.
pub proof fn lemma_slot_bounds<T: Ranked>(s: Seq<T::V>, x: T::V, from: int)
    requires
        0 <= from <= s.len(),
        ascending::<T>(s),
    ensures
        from <= slot::<T>(s, x, from) <= s.len(),
        forall|k: int| from <= k < slot::<T>(s, x, from) ==> key_at_most(T::key(s[k]), T::key(x)),
        forall|k: int|
            slot::<T>(s, x, from) <= k < s.len() ==> key_before(T::key(x), #[trigger] T::key(s[k])),
    decreases s.len() - from,
{
    if from < s.len() {
        if key_before(T::key(x), T::key(s[from])) {
            assert forall|k: int| from <= k < s.len() implies key_before(
                T::key(x),
                #[trigger] T::key(s[k]),
            ) by {
                if k > from {
                    assert(key_at_most(T::key(s[from]), T::key(s[k])));
                    lemma_key_total(T::key(s[from]), T::key(s[k]));
                    if T::key(s[from]) != T::key(s[k]) {
                        lemma_key_transitive(T::key(x), T::key(s[from]), T::key(s[k]));
                    }
                }
            }
        } else {
            lemma_slot_bounds::<T>(s, x, from + 1);
        }
    }
}

/// Sorting keeps every item, as often as it occurs, and puts the items in
/// ascending order.
pub proof fn lemma_sorted<T: Ranked>(s: Seq<T::V>)
    ensures
        sorted::<T>(s).len() == s.len(),
        sorted::<T>(s).to_multiset() == s.to_multiset(),
        ascending::<T>(sorted::<T>(s)),
    decreases s.len(),
{
    broadcast use vstd::seq_lib::group_to_multiset_ensures;

    if s.len() == 0 {
    } else {
        let rest = sorted::<T>(s.drop_last());
        lemma_sorted::<T>(s.drop_last());
        lemma_slot_bounds::<T>(rest, s.last(), 0);
        let p = slot::<T>(rest, s.last(), 0);
        let out = rest.insert(p, s.last());
        assert(s =~= s.drop_last().push(s.last()));
        assert(out.to_multiset() == rest.to_multiset().insert(s.last()));
        assert(s.to_multiset() == s.drop_last().to_multiset().insert(s.last()));
        assert forall|i: int, j: int| 0 <= i < j < out.len() implies key_at_most(
            T::key(out[i]),
            T::key(out[j]),
        ) by {
            lemma_key_total(T::key(out[i]), T::key(out[j]));
            if i == p {
                assert(out[j] == rest[j - 1]);
            } else if j == p {
                assert(out[i] == rest[i]);
            } else if i < p && j < p {
                assert(out[i] == rest[i] && out[j] == rest[j]);
            } else if i < p && j > p {
                assert(out[i] == rest[i] && out[j] == rest[j - 1]);
            } else {
                assert(out[i] == rest[i - 1] && out[j] == rest[j - 1]);
            }
        }
    }
}

/// Every two items at different places are `apart`.
pub open spec fn pairwise<A>(s: Seq<A>, apart: spec_fn(A, A) -> bool) -> bool {
    forall|i: int, j: int| 0 <= i < s.len() && 0 <= j < s.len() && i != j ==> apart(s[i], s[j])
}

/// What holds of every two items before sorting holds of every two after.
pub proof fn lemma_sorted_pairwise<T: Ranked>(s: Seq<T::V>, apart: spec_fn(T::V, T::V) -> bool)
    requires
        pairwise(s, apart),
    ensures
        pairwise(sorted::<T>(s), apart),
    decreases s.len(),
{
    broadcast use vstd::seq_lib::group_to_multiset_ensures;

    if s.len() > 0 {
        let front = s.drop_last();
        assert forall|i: int, j: int|
            0 <= i < front.len() && 0 <= j < front.len() && i != j implies apart(
            front[i],
            front[j],
        ) by {
            assert(apart(s[i], s[j]));
        }
        lemma_sorted_pairwise::<T>(front, apart);
        lemma_sorted::<T>(front);
        let rest = sorted::<T>(front);
        lemma_slot_bounds::<T>(rest, s.last(), 0);
        let p = slot::<T>(rest, s.last(), 0);
        let out = rest.insert(p, s.last());
        assert forall|k: int| 0 <= k < rest.len() implies apart(#[trigger] rest[k], s.last())
            && apart(s.last(), rest[k]) by {
            assert(rest.to_multiset().count(rest[k]) > 0);
            assert(front.contains(rest[k]));
            let i = choose|i: int| 0 <= i < front.len() && front[i] == rest[k];
            assert(apart(s[i], s[s.len() - 1]) && apart(s[s.len() - 1], s[i]));
        }
        assert forall|i: int, j: int|
            0 <= i < out.len() && 0 <= j < out.len() && i != j implies apart(out[i], out[j]) by {
            let a = if i < p { i } else { i - 1 };
            let b = if j < p { j } else { j - 1 };
            if i == p {
                assert(out[j] == rest[b]);
            } else if j == p {
                assert(out[i] == rest[a]);
            } else {
                assert(out[i] == rest[a] && out[j] == rest[b]);
                assert(apart(rest[a], rest[b]));
            }
        }
    }
}

/// The sorted sequence holds exactly the items of the sequence.
pub proof fn lemma_sorted_contains<T: Ranked>(s: Seq<T::V>, x: T::V)
    ensures
        sorted::<T>(s).contains(x) == s.contains(x),
{
    broadcast use vstd::seq_lib::group_to_multiset_ensures;

    lemma_sorted::<T>(s);
    assert(sorted::<T>(s).to_multiset().count(x) == s.to_multiset().count(x));
}

/// Sorts `v` by the keys of its items; items with equal keys keep their
/// order.
pub fn sort<T: Ranked>(v: Vec<T>) -> (r: Vec<T>)
    ensures
        views(r@) == sorted::<T>(views(v@)),
        ascending::<T>(views(r@)),
        views(r@).to_multiset() == views(v@).to_multiset(),
{
    let ghost whole = views(v@);
    proof {
        lemma_sorted::<T>(whole);
    }
    let mut input = v;
    let mut out: Vec<T> = Vec::new();
    let ghost mut done: int = 0;
    assert(whole.take(0) =~= Seq::<T::V>::empty());
    while input.len() > 0
        invariant
            0 <= done <= whole.len(),
            views(input@) == whole.skip(done),
            views(out@) == sorted::<T>(whole.take(done)),
        decreases input@.len(),
    {
        let ghost pending = input@;
        let x = input.remove(0);
        let mut p: usize = 0;
        proof {
            lemma_sorted::<T>(whole.take(done));
        }
        while p < out.len() && !x.ranks_before(&out[p])
            invariant
                p <= out@.len(),
                slot::<T>(views(out@), x@, 0) == slot::<T>(views(out@), x@, p as int),
            decreases out@.len() - p,
        {
            p += 1;
        }
        proof {
            assert(views(pending).len() == pending.len());
            assert(whole.skip(done).len() == whole.len() - done);
            let next = whole.take(done + 1);
            assert(views(pending)[0] == x@);
            assert(whole.skip(done)[0] == whole[done]);
            assert(next.drop_last() =~= whole.take(done));
            assert(next.last() == x@);
            assert(views(out@.insert(p as int, x)) =~= views(out@).insert(p as int, x@));
            assert(views(input@) =~= views(pending).skip(1));
            assert(views(pending).skip(1) =~= whole.skip(done + 1));
        }
        out.insert(p, x);
        proof {
            done = done + 1;
        }
    }
    assert(whole.take(done) =~= whole);
    out
}

} // verus!
