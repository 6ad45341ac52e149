//! Stable sorting by rank.
//!
//! A rank is a total preorder: any two items compare, and the comparison is
//! transitive. Sorting keeps items of equal rank in the order they came in.

use vstd::prelude::*;

verus! {

/// Items that can be ranked against each other.
pub trait Ranked: Sized {
    /// `self` does not rank after `other`.
    spec fn rank_le(&self, other: &Self) -> bool;

    /// Any two items compare one way or the other.
    proof fn rank_total(a: &Self, b: &Self)
        ensures
            a.rank_le(b) || b.rank_le(a),
    ;

    /// The comparison is transitive.
    proof fn rank_transitive(a: &Self, b: &Self, c: &Self)
        requires
            a.rank_le(b),
            b.rank_le(c),
        ensures
            a.rank_le(c),
    ;

    /// Decides `rank_le`.
    fn le(&self, other: &Self) -> (r: bool)
        ensures
            r == self.rank_le(other),
    ;
}

impl Ranked for usize {
    /// Numbers rank by size.
    open spec fn rank_le(&self, other: &Self) -> bool {
        *self <= *other
    }

    proof fn rank_total(a: &Self, b: &Self) {
    }

    proof fn rank_transitive(a: &Self, b: &Self, c: &Self) {
    }

    fn le(&self, other: &Self) -> (r: bool) {
        *self <= *other
    }
}

/// No item of `s` ranks strictly after a later one.
pub open spec fn is_ranked<T: Ranked>(s: Seq<T>) -> bool {
    forall|i: int, j: int| 0 <= i < j < s.len() ==> s[i].rank_le(&s[j])
}

/// `x` placed behind the last item of `s` that does not rank after it.
pub open spec fn insert_ranked<T: Ranked>(s: Seq<T>, x: T) -> Seq<T>
    decreases s.len(),
{
    if s.len() == 0 {
        seq![x]
    } else if s.last().rank_le(&x) {
        s.push(x)
    } else {
        insert_ranked(s.drop_last(), x).push(s.last())
    }
}

/// The items of `s` in ascending rank, equal ranks in the order they came in.
pub open spec fn stable_sorted<T: Ranked>(s: Seq<T>) -> Seq<T>
    decreases s.len(),
{
    if s.len() == 0 {
        Seq::empty()
    } else {
        insert_ranked(stable_sorted(s.drop_last()), s.last())
    }
}

/// Inserting at `j` is `insert_ranked` when everything from `j` on ranks
/// strictly after `x` and the item before `j`, if any, does not.
proof fn lemma_insert_position<T: Ranked>(s: Seq<T>, x: T, j: int)
    requires
        0 <= j <= s.len(),
        forall|k: int| j <= k < s.len() ==> !s[k].rank_le(&x),
        j > 0 ==> s[j - 1].rank_le(&x),
    ensures
        insert_ranked(s, x) == s.insert(j, x),
    decreases s.len() - j,
{
    if s.len() == 0 {
        assert(s.insert(j, x) =~= seq![x]);
    } else if j == s.len() {
        assert(s.insert(j, x) =~= s.push(x));
    } else {
        lemma_insert_position(s.drop_last(), x, j);
        assert(s.insert(j, x) =~= s.drop_last().insert(j, x).push(s.last()));
    }
}

/// Sorts `items` by rank, keeping equal ranks in the order they came in.
pub fn stable_sort<T: Ranked + Copy>(items: &Vec<T>) -> (out: Vec<T>)
    ensures
        out@ == stable_sorted(items@),
{
    let mut out: Vec<T> = Vec::new();
    let mut i: usize = 0;
    while i < items.len()
        invariant
            i <= items.len(),
            out@ == stable_sorted(items@.take(i as int)),
        decreases items.len() - i,
    {
        let x = items[i];
        let mut j: usize = out.len();
        while j > 0 && !out[j - 1].le(&x)
            invariant
                j <= out.len(),
                forall|k: int| j <= k < out.len() ==> !out@[k].rank_le(&x),
            decreases j,
        {
            j = j - 1;
        }
        proof {
            lemma_insert_position(out@, x, j as int);
            assert(items@.take(i + 1).drop_last() =~= items@.take(i as int));
        }
        out.insert(j, x);
        i = i + 1;
    }
    assert(items@.take(items.len() as int) =~= items@);
    out
}

/// Inserting into a ranked sequence leaves it ranked.
proof fn lemma_insert_keeps_ranked<T: Ranked>(s: Seq<T>, x: T)
    requires
        is_ranked(s),
    ensures
        is_ranked(insert_ranked(s, x)),
        insert_ranked(s, x).len() == s.len() + 1,
        forall|k: int| 0 <= k < s.len() + 1 ==> #[trigger] insert_ranked(s, x)[k] == x
            || exists|m: int| 0 <= m < s.len() && s[m] == insert_ranked(s, x)[k],
    decreases s.len(),
{
    let r = insert_ranked(s, x);
    if s.len() == 0 {
    } else if s.last().rank_le(&x) {
        assert forall|i: int, j: int| 0 <= i < j < r.len() implies r[i].rank_le(&r[j]) by {
            if j == s.len() {
                if i < s.len() - 1 {
                    T::rank_transitive(&s[i], &s.last(), &x);
                }
            }
        }
        assert forall|k: int| 0 <= k < s.len() + 1 implies #[trigger] r[k] == x
            || exists|m: int| 0 <= m < s.len() && s[m] == r[k] by {
            if k < s.len() {
                assert(s[k] == r[k]);
            }
        }
    } else {
        let p = s.drop_last();
        let q = insert_ranked(p, x);
        assert(is_ranked(p));
        lemma_insert_keeps_ranked(p, x);
        T::rank_total(&s.last(), &x);
        assert forall|i: int, j: int| 0 <= i < j < r.len() implies r[i].rank_le(&r[j]) by {
            if j == r.len() - 1 {
                assert(r[i] == q[i]);
                if q[i] == x {
                } else {
                    let m = choose|m: int| 0 <= m < p.len() && p[m] == q[i];
                    assert(s[m].rank_le(&s[s.len() - 1]));
                }
            } else {
                assert(q[i].rank_le(&q[j]));
            }
        }
        assert forall|k: int| 0 <= k < s.len() + 1 implies #[trigger] r[k] == x
            || exists|m: int| 0 <= m < s.len() && s[m] == r[k] by {
            if k == s.len() {
                assert(s[s.len() - 1] == r[k]);
            } else {
                assert(r[k] == q[k]);
                if q[k] != x {
                    let m = choose|m: int| 0 <= m < p.len() && p[m] == q[k];
                    assert(s[m] == r[k]);
                }
            }
        }
    }
}

/// A sorted sequence is ranked.
pub proof fn lemma_stable_sorted_is_ranked<T: Ranked>(s: Seq<T>)
    ensures
        is_ranked(stable_sorted(s)),
        stable_sorted(s).len() == s.len(),
    decreases s.len(),
{
    if s.len() > 0 {
        lemma_stable_sorted_is_ranked(s.drop_last());
        lemma_insert_keeps_ranked(stable_sorted(s.drop_last()), s.last());
    }
}

/// Inserting adds exactly one occurrence of `x`.
proof fn lemma_insert_multiset<T: Ranked>(s: Seq<T>, x: T)
    ensures
        insert_ranked(s, x).to_multiset() == s.to_multiset().insert(x),
    decreases s.len(),
{
    broadcast use vstd::seq_lib::group_to_multiset_ensures;

    if s.len() == 0 {
        assert(seq![x] =~= Seq::<T>::empty().push(x));
        assert(s =~= Seq::<T>::empty());
    } else if s.last().rank_le(&x) {
    } else {
        lemma_insert_multiset(s.drop_last(), x);
        assert(s =~= s.drop_last().push(s.last()));
        assert(s.drop_last().to_multiset().insert(x).insert(s.last()) =~= s.drop_last().to_multiset().insert(
            s.last(),
        ).insert(x));
    }
}

/// Sorting rearranges: every item occurs as often after as before.
pub proof fn lemma_stable_sorted_permutes<T: Ranked>(s: Seq<T>)
    ensures
        stable_sorted(s).to_multiset() == s.to_multiset(),
    decreases s.len(),
{
    broadcast use vstd::seq_lib::group_to_multiset_ensures;

    if s.len() > 0 {
        lemma_stable_sorted_permutes(s.drop_last());
        lemma_insert_multiset(stable_sorted(s.drop_last()), s.last());
        assert(s =~= s.drop_last().push(s.last()));
    }
}

/// Sorting a ranked sequence changes nothing.
pub proof fn lemma_ranked_is_fixed<T: Ranked>(s: Seq<T>)
    requires
        is_ranked(s),
    ensures
        stable_sorted(s) == s,
    decreases s.len(),
{
    if s.len() > 0 {
        let p = s.drop_last();
        assert(is_ranked(p));
        lemma_ranked_is_fixed(p);
        if p.len() > 0 {
            assert(p.last() == s[s.len() - 2]);
            assert(s[s.len() - 2].rank_le(&s[s.len() - 1]));
        }
        assert(s =~= p.push(s.last()));
    }
}

/// Sorting twice is sorting once.
pub proof fn lemma_stable_sorted_idempotent<T: Ranked>(s: Seq<T>)
    ensures
        stable_sorted(stable_sorted(s)) == stable_sorted(s),
{
    lemma_stable_sorted_is_ranked(s);
    lemma_ranked_is_fixed(stable_sorted(s));
}

/// Inserting adds exactly one image of `x` to the images of the items.
proof fn lemma_insert_maps<T: Ranked, U>(s: Seq<T>, x: T, f: spec_fn(T) -> U)
    ensures
        insert_ranked(s, x).map_values(f).to_multiset() == s.map_values(f).to_multiset().insert(
            f(x),
        ),
    decreases s.len(),
{
    broadcast use vstd::seq_lib::group_to_multiset_ensures;

    if s.len() == 0 {
        assert(seq![x].map_values(f) =~= Seq::<U>::empty().push(f(x)));
        assert(s.map_values(f) =~= Seq::<U>::empty());
    } else if s.last().rank_le(&x) {
        assert(s.push(x).map_values(f) =~= s.map_values(f).push(f(x)));
    } else {
        let front = s.drop_last();
        lemma_insert_maps(front, x, f);
        assert(insert_ranked(front, x).push(s.last()).map_values(f) =~= insert_ranked(
            front,
            x,
        ).map_values(f).push(f(s.last())));
        assert(s.map_values(f) =~= front.map_values(f).push(f(s.last())));
        assert(front.map_values(f).to_multiset().insert(f(x)).insert(f(s.last()))
            =~= front.map_values(f).to_multiset().insert(f(s.last())).insert(f(x)));
    }
}

/// Sorting rearranges the images of the items under any map.
pub proof fn lemma_stable_sorted_maps<T: Ranked, U>(s: Seq<T>, f: spec_fn(T) -> U)
    ensures
        stable_sorted(s).map_values(f).to_multiset() == s.map_values(f).to_multiset(),
    decreases s.len(),
{
    broadcast use vstd::seq_lib::group_to_multiset_ensures;

    if s.len() == 0 {
        assert(stable_sorted(s).map_values(f) =~= s.map_values(f));
    } else {
        lemma_stable_sorted_maps(s.drop_last(), f);
        lemma_insert_maps(stable_sorted(s.drop_last()), s.last(), f);
        assert(s.map_values(f) =~= s.drop_last().map_values(f).push(f(s.last())));
    }
}

/// The place at which `insert_ranked` puts `x` into `s`.
pub open spec fn insert_place<T: Ranked>(s: Seq<T>, x: T) -> int
    decreases s.len(),
{
    if s.len() == 0 {
        0
    } else if s.last().rank_le(&x) {
        s.len() as int
    } else {
        insert_place(s.drop_last(), x)
    }
}

/// For each place of the sorted sequence, the place in `s` that its item
/// came from.
pub open spec fn sorted_from<T: Ranked>(s: Seq<T>) -> Seq<int>
    decreases s.len(),
{
    if s.len() == 0 {
        Seq::empty()
    } else {
        sorted_from(s.drop_last()).insert(
            insert_place(stable_sorted(s.drop_last()), s.last()),
            s.len() - 1,
        )
    }
}

/// `x` goes behind every item that does not rank after it and before every
/// item that does.
proof fn lemma_insert_place<T: Ranked>(s: Seq<T>, x: T)
    ensures
        0 <= insert_place(s, x) <= s.len(),
        insert_ranked(s, x) == s.insert(insert_place(s, x), x),
        forall|k: int| insert_place(s, x) <= k < s.len() ==> !s[k].rank_le(&x),
    decreases s.len(),
{
    if s.len() == 0 {
        assert(s.insert(0, x) =~= seq![x]);
    } else if s.last().rank_le(&x) {
        assert(s.insert(s.len() as int, x) =~= s.push(x));
    } else {
        let front = s.drop_last();
        lemma_insert_place(front, x);
        let j = insert_place(front, x);
        assert(s.insert(j, x) =~= front.insert(j, x).push(s.last()));
        assert forall|k: int| j <= k < s.len() implies !s[k].rank_le(&x) by {
            if k < front.len() {
                assert(front[k] == s[k]);
            }
        }
    }
}

/// Sorting is stable: every item of the sorted sequence comes from a place
/// of its own in `s`, and of two items of which the later does not rank
/// after the earlier, the earlier came first in `s` too.
pub proof fn lemma_stable_sorted_is_stable<T: Ranked>(s: Seq<T>)
    ensures
        sorted_from(s).len() == s.len(),
        stable_sorted(s).len() == s.len(),
        forall|k: int|
            0 <= k < s.len() ==> 0 <= #[trigger] sorted_from(s)[k] < s.len() && stable_sorted(s)[k]
                == s[sorted_from(s)[k]],
        forall|k: int, m: int|
            0 <= k < m < s.len() ==> #[trigger] sorted_from(s)[k] != #[trigger] sorted_from(s)[m],
        forall|k: int, m: int|
            #![trigger sorted_from(s)[k], sorted_from(s)[m]]
            0 <= k < m < s.len() && stable_sorted(s)[m].rank_le(&stable_sorted(s)[k])
                ==> sorted_from(s)[k] < sorted_from(s)[m],
    decreases s.len(),
{
    if s.len() > 0 {
        let front = s.drop_last();
        let x = s.last();
        let before = stable_sorted(front);
        let from_before = sorted_from(front);
        let j = insert_place(before, x);
        lemma_stable_sorted_is_stable(front);
        lemma_insert_place(before, x);
        let out = stable_sorted(s);
        let from = sorted_from(s);
        assert(out == before.insert(j, x));
        assert(from == from_before.insert(j, s.len() - 1));
        assert forall|k: int| 0 <= k < s.len() implies 0 <= #[trigger] from[k] < s.len() && out[k]
            == s[from[k]] by {
            if k < j {
                assert(from[k] == from_before[k]);
                assert(front[from_before[k]] == s[from_before[k]]);
            } else if k > j {
                assert(from[k] == from_before[k - 1]);
                assert(front[from_before[k - 1]] == s[from_before[k - 1]]);
            }
        }
        assert forall|k: int, m: int| 0 <= k < m < s.len() implies #[trigger] from[k]
            != #[trigger] from[m] by {
            let a = if k < j { k } else { k - 1 };
            let b = if m < j { m } else { m - 1 };
            if k != j && m != j {
                assert(from[k] == from_before[a] && from[m] == from_before[b]);
                assert(from_before[a] != from_before[b]);
            } else if k == j {
                assert(from[m] == from_before[b]);
            } else {
                assert(from[k] == from_before[a]);
            }
        }
        assert forall|k: int, m: int|
            #![trigger from[k], from[m]]
            0 <= k < m < s.len() && out[m].rank_le(&out[k]) implies from[k] < from[m] by {
            let a = if k < j { k } else { k - 1 };
            let b = if m < j { m } else { m - 1 };
            if k != j && m != j {
                assert(from[k] == from_before[a] && from[m] == from_before[b]);
                assert(out[k] == before[a] && out[m] == before[b]);
                assert(before[b].rank_le(&before[a]));
            } else if k == j {
                assert(out[m] == before[b]);
                assert(!before[b].rank_le(&x));
            } else {
                assert(from[k] == from_before[a]);
            }
        }
    }
}

} // verus!
