//! Small sequence lemmas shared by the store modules, mostly about
//! filtering a sequence one element at a time.
use vstd::prelude::*;

verus! {

/// Extending a prefix by one element extends the filtered prefix by that
/// element exactly when the element matches the predicate.
pub proof fn lemma_take_filter_step<A>(s: Seq<A>, pred: spec_fn(A) -> bool, i: int)
    requires
        0 <= i < s.len(),
    ensures
        s.take(i + 1).filter(pred) == (if pred(s[i]) {
            s.take(i).filter(pred).push(s[i])
        } else {
            s.take(i).filter(pred)
        }),
{
    reveal_with_fuel(Seq::filter, 2);
    let t = s.take(i + 1);
    assert(t.len() == i + 1);
    assert(t.drop_last() =~= s.take(i));
    assert(t.last() == s[i]);
}

/// Filtering keeps a sequence whole when every element matches.
pub proof fn lemma_filter_all<A>(s: Seq<A>, pred: spec_fn(A) -> bool)
    requires
        forall|i: int| 0 <= i < s.len() ==> pred(#[trigger] s[i]),
    ensures
        s.filter(pred) == s,
    decreases s.len(),
{
    reveal_with_fuel(Seq::filter, 2);
    if s.len() == 0 {
        assert(s.filter(pred) =~= s);
    } else {
        lemma_filter_all(s.drop_last(), pred);
        assert(pred(s.last()));
        assert(s.filter(pred) == s.drop_last().filter(pred).push(s.last()));
        assert(s.filter(pred) =~= s);
    }
}

/// Filtering never introduces a duplicate.
pub proof fn lemma_filter_no_duplicates<A>(s: Seq<A>, pred: spec_fn(A) -> bool)
    requires
        s.no_duplicates(),
    ensures
        s.filter(pred).no_duplicates(),
    decreases s.len(),
{
    reveal_with_fuel(Seq::filter, 2);
    if s.len() == 0 {
    } else {
        let rest = s.drop_last();
        let last = s.last();
        lemma_filter_no_duplicates(rest, pred);
        if pred(last) {
            assert(!rest.contains(last));
            if rest.filter(pred).contains(last) {
                rest.lemma_filter_contains_rev(pred, last);
            }
            let g = rest.filter(pred);
            let f = g.push(last);
            assert(s.filter(pred) == f);
            assert(f.len() == g.len() + 1);
            assert forall|i: int, j: int| 0 <= i < j < f.len() implies f[i] != f[j] by {
                if j < f.len() - 1 {
                    assert(f[i] == g[i]);
                    assert(f[j] == g[j]);
                } else {
                    assert(f[j] == last);
                    assert(f[i] == g[i]);
                    assert(g.contains(g[i]));
                }
            };
        } else {
            assert(s.filter(pred) == rest.filter(pred));
        }
    }
}

/// Filtering drops a sequence entirely when no element matches.
pub proof fn lemma_filter_none<A>(s: Seq<A>, pred: spec_fn(A) -> bool)
    requires
        forall|i: int| 0 <= i < s.len() ==> !pred(#[trigger] s[i]),
    ensures
        s.filter(pred) == Seq::<A>::empty(),
    decreases s.len(),
{
    reveal_with_fuel(Seq::filter, 2);
    if s.len() == 0 {
        assert(s.filter(pred) =~= Seq::<A>::empty());
    } else {
        lemma_filter_none(s.drop_last(), pred);
        assert(!pred(s.last()));
        assert(s.filter(pred) == s.drop_last().filter(pred));
    }
}

/// A second, weaker filter on an already filtered sequence collapses
/// into the weaker filter alone.
pub proof fn lemma_filter_absorb<A>(s: Seq<A>, p: spec_fn(A) -> bool, q: spec_fn(A) -> bool)
    requires
        forall|x: A| #[trigger] q(x) ==> p(x),
    ensures
        s.filter(p).filter(q) == s.filter(q),
    decreases s.len(),
{
    reveal_with_fuel(Seq::filter, 2);
    if s.len() == 0 {
        assert(s.filter(p) =~= s);
    } else {
        let rest = s.drop_last();
        let last = s.last();
        lemma_filter_absorb(rest, p, q);
        if p(last) {
            assert(s.filter(p) == rest.filter(p).push(last));
            assert(s.filter(p).drop_last() =~= rest.filter(p));
            assert(s.filter(p).last() == last);
        } else {
            assert(!q(last));
            assert(s.filter(p) == rest.filter(p));
            assert(s.filter(q) == rest.filter(q));
        }
    }
}

/// Two predicates that agree on every element filter alike.
pub proof fn lemma_filter_congruence<A>(s: Seq<A>, p: spec_fn(A) -> bool, q: spec_fn(A) -> bool)
    requires
        forall|i: int| 0 <= i < s.len() ==> p(#[trigger] s[i]) == q(s[i]),
    ensures
        s.filter(p) == s.filter(q),
    decreases s.len(),
{
    reveal_with_fuel(Seq::filter, 2);
    if s.len() == 0 {
        assert(s.filter(p) =~= s.filter(q));
    } else {
        lemma_filter_congruence(s.drop_last(), p, q);
        assert(p(s.last()) == q(s.last()));
    }
}

/// Filtering out exactly one position is the same as removing it.
pub proof fn lemma_filter_remove_one<A>(s: Seq<A>, pred: spec_fn(A) -> bool, w: int)
    requires
        0 <= w < s.len(),
        !pred(s[w]),
        forall|i: int| 0 <= i < s.len() && i != w ==> pred(#[trigger] s[i]),
    ensures
        s.filter(pred) == s.remove(w),
{
    let front = s.take(w);
    let mid = s.subrange(w, w + 1);
    let back = s.skip(w + 1);
    assert(s =~= front + mid + back);
    Seq::<A>::filter_distributes_over_add(front + mid, back, pred);
    Seq::<A>::filter_distributes_over_add(front, mid, pred);
    lemma_filter_all(front, pred);
    lemma_filter_all(back, pred);
    assert(mid[0] == s[w]);
    lemma_filter_none(mid, pred);
    assert((front + mid + back).filter(pred) == front + back);
    assert(s.filter(pred) == front + back);
    assert(s.remove(w) =~= front + back);
}

/// The multiset of a one-element sequence.
pub proof fn lemma_singleton_multiset<A>(x: A)
    ensures
        seq![x].to_multiset() == vstd::multiset::Multiset::empty().insert(x),
{
    broadcast use vstd::seq_lib::group_to_multiset_ensures;
    broadcast use vstd::multiset::group_multiset_axioms;

    let e = Seq::<A>::empty();
    assert(seq![x] =~= e.push(x));
    assert(e.push(x).to_multiset() =~= e.to_multiset().insert(x));
    assert(e.to_multiset().len() == 0);
    vstd::multiset::lemma_multiset_empty_len(e.to_multiset());
    assert(e.to_multiset() =~= vstd::multiset::Multiset::<A>::empty());
}

/// Extending a prefix by one element inserts that element into the
/// prefix's multiset.
pub proof fn lemma_take_push_multiset<A>(s: Seq<A>, i: int)
    requires
        0 <= i < s.len(),
    ensures
        s.take(i + 1).to_multiset() == s.take(i).to_multiset().insert(s[i]),
{
    broadcast use vstd::seq_lib::group_to_multiset_ensures;

    assert(s.take(i + 1) =~= s.take(i).push(s[i]));
    assert(s.take(i).push(s[i]).to_multiset() =~= s.take(i).to_multiset().insert(s[i]));
}

} // verus!
