//! Stable sorting.
use vstd::prelude::*;

verus! {

/// What the elements of `v` stand for.
pub open spec fn views<T: View>(v: Seq<T>) -> Seq<T::V> {
    v.map_values(|x: T| x@)
}

/// A rule that says which of two values comes first.
pub trait Precedence<T: View> {
    /// Whether `a` comes strictly before `b`.
    spec fn before(&self, a: T::V, b: T::V) -> bool;

    /// Whether `a` comes strictly before `b`.
    fn is_before(&self, a: &T, b: &T) -> (r: bool)
        ensures
            r == self.before(a@, b@),
    ;
}

/// `x` put into `s` behind everything that does not come after it.
pub open spec fn inserted<V>(s: Seq<V>, x: V, before: spec_fn(V, V) -> bool) -> Seq<V>
    decreases s.len(),
{
    if s.len() > 0 && before(x, s.last()) {
        inserted(s.drop_last(), x, before).push(s.last())
    } else {
        s.push(x)
    }
}

/// `s` in the order of `before`; elements of equal rank keep their relative order.
pub open spec fn sorted<V>(s: Seq<V>, before: spec_fn(V, V) -> bool) -> Seq<V>
    decreases s.len(),
{
    if s.len() == 0 {
        s
    } else {
        inserted(sorted(s.drop_last(), before), s.last(), before)
    }
}

/// The rank rule of `order` as a function of two values.
pub open spec fn rule<T: View, O: Precedence<T>>(order: O) -> spec_fn(T::V, T::V) -> bool {
    |a: T::V, b: T::V| order.before(a, b)
}

proof fn lemma_inserted_tail<V>(s: Seq<V>, k: int, x: V, before: spec_fn(V, V) -> bool)
    requires
        0 <= k <= s.len(),
        forall|j: int| k <= j < s.len() ==> before(x, s[j]),
        k == 0 || !before(x, s[k - 1]),
    ensures
        inserted(s, x, before) == s.insert(k, x),
    decreases s.len(),
{
    if k < s.len() {
        lemma_inserted_tail(s.drop_last(), k, x, before);
        assert(s.drop_last().insert(k, x).push(s.last()) == s.insert(k, x));
    } else {
        assert(s.push(x) == s.insert(k, x));
    }
}

/// Sorts `v`; elements of equal rank keep their relative order.
pub fn sort<T: View, O: Precedence<T>>(v: &mut Vec<T>, order: &O)
    ensures
        views(final(v)@) == sorted(views(old(v)@), rule::<T, O>(*order)),
{
    let n: usize = v.len();
    let ghost all = views(v@);
    let ghost f = rule::<T, O>(*order);
    let mut i: usize = 0;
    assert(all.take(0) == Seq::<T::V>::empty());
    assert(views(v@).take(0) == Seq::<T::V>::empty());
    while i < n
        invariant
            i <= n,
            n == v.len(),
            all.len() == n,
            f == rule::<T, O>(*order),
            views(v@).take(i as int) == sorted(all.take(i as int), f),
            views(v@).skip(i as int) == all.skip(i as int),
        decreases n - i,
    {
        let ghost done = views(v@).take(i as int);
        let ghost x = v@[i as int]@;
        let mut k: usize = i;
        while k > 0 && order.is_before(&v[i], &v[k - 1])
            invariant
                k <= i < n == v.len(),
                x == v@[i as int]@,
                f == rule::<T, O>(*order),
                done == views(v@).take(i as int),
                forall|j: int| k <= j < i ==> f(x, #[trigger] done[j]),
            decreases k,
        {
            assert(done[k - 1] == v@[k - 1]@);
            k -= 1;
        }
        proof {
            if k > 0 {
                assert(done[k - 1] == v@[k - 1]@);
            }
            lemma_inserted_tail(done, k as int, x, f);
            assert(all.skip(i as int)[0] == views(v@).skip(i as int)[0]);
            assert(all.take(i + 1).drop_last() == all.take(i as int));
            assert(all.take(i + 1).last() == x);
        }
        let ghost was = v@;
        let item = v.remove(i);
        v.insert(k, item);
        assert(views(v@).take(i + 1) == done.insert(k as int, x));
        assert(views(v@).skip(i + 1) == views(was).skip(i as int).skip(1));
        assert(all.skip(i + 1) == all.skip(i as int).skip(1));
        i += 1;
    }
    assert(views(v@).take(n as int) == views(v@));
    assert(all.take(n as int) == all);
}

proof fn lemma_inserted_length<V>(s: Seq<V>, x: V, before: spec_fn(V, V) -> bool)
    ensures
        inserted(s, x, before).len() == s.len() + 1,
    decreases s.len(),
{
    if s.len() > 0 && before(x, s.last()) {
        lemma_inserted_length(s.drop_last(), x, before);
    }
}

/// Sorting keeps the number of elements.
pub proof fn sorting_keeps_length<V>(s: Seq<V>, before: spec_fn(V, V) -> bool)
    ensures
        sorted(s, before).len() == s.len(),
    decreases s.len(),
{
    if s.len() > 0 {
        sorting_keeps_length(s.drop_last(), before);
        lemma_inserted_length(sorted(s.drop_last(), before), s.last(), before);
    }
}

/// Whether `before` ranks values: nothing precedes both ways, and not preceding is
/// transitive.
pub open spec fn ranks<V>(before: spec_fn(V, V) -> bool) -> bool {
    &&& forall|a: V, b: V| #[trigger] before(a, b) ==> !before(b, a)
    &&& forall|a: V, b: V, c: V|
        !#[trigger] before(a, b) && !#[trigger] before(b, c) ==> !before(a, c)
}

/// Whether nothing in `s` comes after something that it precedes.
pub open spec fn in_order<V>(s: Seq<V>, before: spec_fn(V, V) -> bool) -> bool {
    forall|i: int, j: int| 0 <= i < j < s.len() ==> !before(#[trigger] s[j], #[trigger] s[i])
}

/// Whether `a` and `b` have the same rank.
pub open spec fn tied<V>(a: V, b: V, before: spec_fn(V, V) -> bool) -> bool {
    !before(a, b) && !before(b, a)
}

/// The elements of `s` that have the rank of `x`.
pub open spec fn ties<V>(s: Seq<V>, x: V, before: spec_fn(V, V) -> bool) -> Seq<V> {
    s.filter(|y: V| tied(x, y, before))
}

proof fn lemma_inserted_multiset<V>(s: Seq<V>, x: V, before: spec_fn(V, V) -> bool)
    ensures
        inserted(s, x, before).to_multiset() == s.to_multiset().insert(x),
    decreases s.len(),
{
    broadcast use vstd::seq_lib::group_to_multiset_ensures;

    if s.len() > 0 && before(x, s.last()) {
        lemma_inserted_multiset(s.drop_last(), x, before);
        assert(s.drop_last().push(s.last()) == s);
        assert(s.to_multiset() == s.drop_last().to_multiset().insert(s.last()));
        assert(inserted(s, x, before).to_multiset() == inserted(
            s.drop_last(),
            x,
            before,
        ).to_multiset().insert(s.last()));
    }
}

/// Sorting loses nothing and adds nothing.
pub proof fn sorting_keeps_elements<V>(s: Seq<V>, before: spec_fn(V, V) -> bool)
    ensures
        sorted(s, before).to_multiset() == s.to_multiset(),
    decreases s.len(),
{
    broadcast use vstd::seq_lib::group_to_multiset_ensures;

    if s.len() > 0 {
        sorting_keeps_elements(s.drop_last(), before);
        lemma_inserted_multiset(sorted(s.drop_last(), before), s.last(), before);
        assert(s.drop_last().push(s.last()) == s);
    }
}

/// What is sorted has the members that it had.
pub proof fn sorting_keeps_members<V>(s: Seq<V>, before: spec_fn(V, V) -> bool)
    ensures
        forall|x: V| #[trigger] sorted(s, before).contains(x) <==> s.contains(x),
{
    broadcast use vstd::seq_lib::group_to_multiset_ensures;

    sorting_keeps_elements(s, before);
    assert forall|x: V| #[trigger] sorted(s, before).contains(x) <==> s.contains(x) by {
        assert(s.contains(x) <==> s.to_multiset().count(x) > 0);
    }
}

proof fn lemma_inserted_in_order<V>(s: Seq<V>, x: V, before: spec_fn(V, V) -> bool)
    requires
        ranks(before),
        in_order(s, before),
    ensures
        in_order(inserted(s, x, before), before),
        inserted(s, x, before).len() == s.len() + 1,
        forall|y: V| #[trigger] inserted(s, x, before).contains(y) ==> y == x || s.contains(y),
    decreases s.len(),
{
    let r = inserted(s, x, before);
    if s.len() > 0 && before(x, s.last()) {
        let t = s.drop_last();
        let u = inserted(t, x, before);
        lemma_inserted_in_order(t, x, before);
        assert forall|i: int, j: int| 0 <= i < j < r.len() implies !before(
            #[trigger] r[j],
            #[trigger] r[i],
        ) by {
            if j == r.len() - 1 {
                assert(u.contains(r[i])) by {
                    assert(u[i] == r[i]);
                }
                if r[i] != x {
                    let k = choose|k: int| 0 <= k < t.len() && t[k] == r[i];
                    assert(s[k] == r[i]);
                    assert(!before(s[s.len() - 1], s[k]));
                }
            }
        }
        assert forall|y: V| #[trigger] r.contains(y) implies y == x || s.contains(y) by {
            let i = choose|i: int| 0 <= i < r.len() && r[i] == y;
            if i == r.len() - 1 {
                assert(s[s.len() - 1] == y);
            } else {
                assert(u[i] == y);
                assert(u.contains(y));
                if y != x {
                    let k = choose|k: int| 0 <= k < t.len() && t[k] == y;
                    assert(s[k] == y);
                }
            }
        }
    } else {
        assert forall|i: int, j: int| 0 <= i < j < r.len() implies !before(
            #[trigger] r[j],
            #[trigger] r[i],
        ) by {
            if j == r.len() - 1 && i < s.len() - 1 {
                assert(!before(s[s.len() - 1], s[i]));
            }
        }
        assert forall|y: V| #[trigger] r.contains(y) implies y == x || s.contains(y) by {
            let i = choose|i: int| 0 <= i < r.len() && r[i] == y;
            if i < s.len() {
                assert(s[i] == y);
            }
        }
    }
}

/// What is sorted by a ranking is in order.
pub proof fn sorting_puts_in_order<V>(s: Seq<V>, before: spec_fn(V, V) -> bool)
    requires
        ranks(before),
    ensures
        in_order(sorted(s, before), before),
        sorted(s, before).len() == s.len(),
    decreases s.len(),
{
    if s.len() > 0 {
        sorting_puts_in_order(s.drop_last(), before);
        lemma_inserted_in_order(sorted(s.drop_last(), before), s.last(), before);
    }
}

proof fn lemma_inserted_ties<V>(s: Seq<V>, x: V, y: V, before: spec_fn(V, V) -> bool)
    requires
        ranks(before),
    ensures
        ties(inserted(s, x, before), y, before) == ties(s.push(x), y, before),
    decreases s.len(),
{
    let keep = |z: V| tied(y, z, before);
    if s.len() > 0 && before(x, s.last()) {
        let t = s.drop_last();
        lemma_inserted_ties(t, x, y, before);
        filter_of_push(inserted(t, x, before), s.last(), keep);
        filter_of_push(t, x, keep);
        filter_of_push(t, s.last(), keep);
        filter_of_push(s, x, keep);
        assert(t.push(s.last()) == s);
        assert(!(keep(x) && keep(s.last())));
    }
}

/// Sorting by a ranking keeps elements of equal rank in the order they had.
pub proof fn sorting_is_stable<V>(s: Seq<V>, x: V, before: spec_fn(V, V) -> bool)
    requires
        ranks(before),
    ensures
        ties(sorted(s, before), x, before) == ties(s, x, before),
    decreases s.len(),
{
    if s.len() > 0 {
        let keep = |z: V| tied(x, z, before);
        let t = s.drop_last();
        sorting_is_stable(t, x, before);
        lemma_inserted_ties(sorted(t, before), s.last(), x, before);
        filter_of_push(sorted(t, before), s.last(), keep);
        filter_of_push(t, s.last(), keep);
        assert(t.push(s.last()) == s);
    }
}

proof fn lemma_inserted_maps<A, B>(
    s: Seq<A>,
    x: A,
    f: spec_fn(A) -> B,
    before: spec_fn(A, A) -> bool,
    after: spec_fn(B, B) -> bool,
)
    requires
        forall|a: A, b: A| #[trigger] before(a, b) == after(f(a), f(b)),
    ensures
        inserted(s, x, before).map_values(f) == inserted(s.map_values(f), f(x), after),
    decreases s.len(),
{
    let t = s.map_values(f);
    if s.len() > 0 {
        assert(t.last() == f(s.last()));
        assert(before(x, s.last()) == after(f(x), t.last()));
    }
    if s.len() > 0 && before(x, s.last()) {
        lemma_inserted_maps(s.drop_last(), x, f, before, after);
        assert(t.drop_last() =~= s.drop_last().map_values(f));
        let u = inserted(s.drop_last(), x, before);
        assert(u.push(s.last()).map_values(f) =~= u.map_values(f).push(f(s.last())));
    } else {
        assert(s.push(x).map_values(f) =~= t.push(f(x)));
    }
}

/// Values that are renamed without a change of their ranks are sorted as they were.
pub proof fn sorting_keeps_to_ranks<A, B>(
    s: Seq<A>,
    f: spec_fn(A) -> B,
    before: spec_fn(A, A) -> bool,
    after: spec_fn(B, B) -> bool,
)
    requires
        forall|a: A, b: A| #[trigger] before(a, b) == after(f(a), f(b)),
    ensures
        sorted(s, before).map_values(f) == sorted(s.map_values(f), after),
    decreases s.len(),
{
    if s.len() > 0 {
        let t = s.drop_last();
        sorting_keeps_to_ranks(t, f, before, after);
        lemma_inserted_maps(sorted(t, before), s.last(), f, before, after);
        assert(s.map_values(f).drop_last() =~= t.map_values(f));
    } else {
        assert(s.map_values(f) =~= Seq::empty());
    }
}

/// Filtering keeps everything where everything is wanted, and nothing where nothing is.
pub proof fn filter_of_uniform<V>(s: Seq<V>, keep: spec_fn(V) -> bool, wanted: bool)
    requires
        forall|i: int| 0 <= i < s.len() ==> keep(#[trigger] s[i]) == wanted,
    ensures
        s.filter(keep) == if wanted {
            s
        } else {
            Seq::empty()
        },
    decreases s.len(),
{
    reveal(Seq::filter);
    if s.len() > 0 {
        let t = s.drop_last();
        assert forall|i: int| 0 <= i < t.len() implies keep(#[trigger] t[i]) == wanted by {
            assert(t[i] == s[i]);
        }
        filter_of_uniform(t, keep, wanted);
        assert(keep(s[s.len() - 1]) == wanted);
        assert(t.push(s.last()) =~= s);
    }
}

/// What filtering keeps of a sequence with one more element.
pub proof fn filter_of_push<V>(s: Seq<V>, x: V, keep: spec_fn(V) -> bool)
    ensures
        s.push(x).filter(keep) == if keep(x) {
            s.filter(keep).push(x)
        } else {
            s.filter(keep)
        },
{
    reveal(Seq::filter);
    assert(s.push(x).drop_last() == s);
}

/// Where the elements that filtering keeps stand in the sequence.
pub proof fn filter_positions<V>(s: Seq<V>, keep: spec_fn(V) -> bool) -> (p: Seq<int>)
    ensures
        p.len() == s.filter(keep).len(),
        forall|i: int|
            0 <= i < p.len() ==> 0 <= #[trigger] p[i] < s.len() && s[p[i]] == s.filter(keep)[i]
                && keep(s.filter(keep)[i]),
        forall|i: int, j: int| 0 <= i < j < p.len() ==> #[trigger] p[i] < #[trigger] p[j],
    decreases s.len(),
{
    reveal(Seq::filter);
    if s.len() == 0 {
        Seq::empty()
    } else {
        let p = filter_positions(s.drop_last(), keep);
        assert forall|i: int| 0 <= i < p.len() implies 0 <= #[trigger] p[i] < s.len() && s[p[i]]
            == s.drop_last().filter(keep)[i] by {
            assert(s.drop_last()[p[i]] == s[p[i]]);
        }
        if keep(s.last()) {
            p.push(s.len() - 1)
        } else {
            p
        }
    }
}

/// A rule that says which values to keep.
pub trait Choice<T: View> {
    /// Whether `x` is kept.
    spec fn keeps(&self, x: T::V) -> bool;

    /// Whether `x` is kept.
    fn does_keep(&self, x: &T) -> (r: bool)
        ensures
            r == self.keeps(x@),
    ;
}

/// The rule of `choice` as a function of a value.
pub open spec fn kept<T: View, C: Choice<T>>(choice: C) -> spec_fn(T::V) -> bool {
    |x: T::V| choice.keeps(x)
}

/// Removes what is not kept; the rest keeps its order.
pub fn retain<T: View, C: Choice<T>>(v: &mut Vec<T>, choice: &C)
    ensures
        views(final(v)@) == views(old(v)@).filter(kept::<T, C>(*choice)),
{
    let ghost all = views(v@);
    let ghost keep = kept::<T, C>(*choice);
    let ghost mut seen: int = 0;
    let mut i: usize = 0;
    proof {
        reveal(Seq::filter);
        assert(all.take(0) == Seq::<T::V>::empty());
        assert(all.take(0).filter(keep) == Seq::<T::V>::empty());
        assert(all.skip(0) == all);
        assert(views(v@) =~= all.take(0).filter(keep) + all.skip(0));
    }
    while i < v.len()
        invariant
            keep == kept::<T, C>(*choice),
            i <= v.len(),
            0 <= seen <= all.len(),
            i == all.take(seen).filter(keep).len(),
            views(v@) == all.take(seen).filter(keep) + all.skip(seen),
        decreases v.len() - i,
    {
        let ghost x = v@[i as int]@;
        let ghost done = all.take(seen).filter(keep);
        proof {
            assert(views(v@)[i as int] == x);
            assert(all.skip(seen)[0] == all[seen]);
            assert(all.take(seen + 1) == all.take(seen).push(x));
            filter_of_push(all.take(seen), x, keep);
        }
        let ghost was = views(v@);
        if choice.does_keep(&v[i]) {
            assert(was =~= done.push(x) + all.skip(seen + 1));
            i += 1;
        } else {
            v.remove(i);
            assert(views(v@) =~= was.remove(i as int));
            assert(was.remove(i as int) =~= done + all.skip(seen + 1));
        }
        proof {
            seen = seen + 1;
        }
    }
    proof {
        assert(all.skip(seen).len() == 0);
        assert(all.take(seen) =~= all);
        assert(views(v@) =~= all.filter(keep));
    }
}

} // verus!
