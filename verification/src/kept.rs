//! Picking values out of sequences.

use vstd::prelude::*;

verus! {

/// The values that pass a test, in order.
pub open spec fn kept<T>(s: Seq<T>, keep: spec_fn(T) -> bool) -> Seq<T>
    decreases s.len(),
{
    if s.len() == 0 {
        s
    } else {
        let rest = kept(s.drop_last(), keep);
        if keep(s.last()) {
            rest.push(s.last())
        } else {
            rest
        }
    }
}

/// Tests that agree on everything in a sequence keep the same.
pub proof fn lemma_kept_same<T>(s: Seq<T>, p: spec_fn(T) -> bool, q: spec_fn(T) -> bool)
    requires
        forall|x: T| s.contains(x) ==> #[trigger] p(x) == q(x),
    ensures
        kept(s, p) == kept(s, q),
    decreases s.len(),
{
    if s.len() > 0 {
        assert(s.contains(s.last()));
        assert forall|x: T| s.drop_last().contains(x) implies #[trigger] p(x) == q(x) by {
            let i = choose|i: int| 0 <= i < s.drop_last().len() && s.drop_last()[i] == x;
            assert(s[i] == x);
        }
        lemma_kept_same(s.drop_last(), p, q);
    }
}

/// What's kept is what was there and passes the test.
pub proof fn lemma_kept_contains<T>(s: Seq<T>, p: spec_fn(T) -> bool, x: T)
    ensures
        kept(s, p).contains(x) <==> s.contains(x) && p(x),
    decreases s.len(),
{
    if s.len() > 0 {
        let rest = kept(s.drop_last(), p);
        let all = kept(s, p);
        lemma_kept_contains(s.drop_last(), p, x);
        if all.contains(x) {
            let i = choose|i: int| 0 <= i < all.len() && all[i] == x;
            if i < rest.len() {
                assert(rest[i] == x);
                let k = choose|k: int| 0 <= k < s.drop_last().len() && s.drop_last()[k] == x;
                assert(s[k] == x);
            } else {
                assert(s[s.len() - 1] == x);
            }
        }
        if s.contains(x) && p(x) {
            let k = choose|k: int| 0 <= k < s.len() && s[k] == x;
            if k < s.len() - 1 {
                assert(s.drop_last()[k] == x);
                let i = choose|i: int| 0 <= i < rest.len() && rest[i] == x;
                assert(all[i] == x);
            } else {
                assert(all[all.len() - 1] == x);
            }
        }
    }
}

/// A test that everything passes keeps everything.
pub proof fn lemma_kept_all<T>(s: Seq<T>, p: spec_fn(T) -> bool)
    requires
        forall|x: T| s.contains(x) ==> #[trigger] p(x),
    ensures
        kept(s, p) == s,
    decreases s.len(),
{
    if s.len() > 0 {
        assert(s.contains(s.last()));
        assert forall|x: T| s.drop_last().contains(x) implies #[trigger] p(x) by {
            let i = choose|i: int| 0 <= i < s.drop_last().len() && s.drop_last()[i] == x;
            assert(s[i] == x);
        }
        lemma_kept_all(s.drop_last(), p);
        assert(s.drop_last().push(s.last()) =~= s);
    }
}

/// A test that nothing passes keeps nothing.
pub proof fn lemma_kept_none<T>(s: Seq<T>, p: spec_fn(T) -> bool)
    requires
        forall|x: T| s.contains(x) ==> !#[trigger] p(x),
    ensures
        kept(s, p) == Seq::<T>::empty(),
    decreases s.len(),
{
    if s.len() > 0 {
        assert(s.contains(s.last()));
        assert forall|x: T| s.drop_last().contains(x) implies !#[trigger] p(x) by {
            let i = choose|i: int| 0 <= i < s.drop_last().len() && s.drop_last()[i] == x;
            assert(s[i] == x);
        }
        lemma_kept_none(s.drop_last(), p);
    } else {
        assert(s =~= Seq::empty());
    }
}

/// Keeping goes through sequences put end to end one after the other.
pub proof fn lemma_kept_add<T>(s: Seq<T>, t: Seq<T>, p: spec_fn(T) -> bool)
    ensures
        kept(s + t, p) == kept(s, p) + kept(t, p),
    decreases t.len(),
{
    if t.len() == 0 {
        assert(s + t =~= s);
        assert(kept(s, p) + kept(t, p) =~= kept(s, p));
    } else {
        lemma_kept_add(s, t.drop_last(), p);
        assert((s + t).drop_last() =~= s + t.drop_last());
        assert((s + t).last() == t.last());
        assert(kept(s, p) + kept(t.drop_last(), p).push(t.last()) =~= (kept(s, p) + kept(
            t.drop_last(),
            p,
        )).push(t.last()));
    }
}

/// Keeping twice keeps what passes both tests.
pub proof fn lemma_kept_twice<T>(
    s: Seq<T>,
    p: spec_fn(T) -> bool,
    q: spec_fn(T) -> bool,
    both: spec_fn(T) -> bool,
)
    requires
        forall|x: T| #[trigger] both(x) == (p(x) && q(x)),
    ensures
        kept(kept(s, p), q) == kept(s, both),
    decreases s.len(),
{
    if s.len() > 0 {
        lemma_kept_twice(s.drop_last(), p, q, both);
        assert(both(s.last()) == (p(s.last()) && q(s.last())));
        if p(s.last()) {
            let rest = kept(s.drop_last(), p);
            assert(rest.push(s.last()).drop_last() =~= rest);
        }
    }
}

/// Which values are other than the given one.
pub open spec fn other_than<T>(x: T) -> spec_fn(T) -> bool {
    |y: T| y != x
}

/// A sequence without a value.
pub open spec fn without<T>(s: Seq<T>, x: T) -> Seq<T> {
    kept(s, other_than(x))
}

/// Taking away a value that's not there changes nothing.
pub proof fn lemma_without_absent<T>(s: Seq<T>, x: T)
    requires
        !s.contains(x),
    ensures
        without(s, x) == s,
{
    lemma_kept_all(s, other_than(x));
}

/// Moving a value to the end, where it's not among the last ones.
pub proof fn lemma_to_the_end<T>(left: Seq<T>, placed: Seq<T>, x: T)
    requires
        !placed.contains(x),
    ensures
        without(left + placed, x) == without(left, x) + placed,
        without(left + placed, x).push(x) == without(left, x) + placed.push(x),
        without((left + placed).push(x), x).push(x) == without(left, x) + placed.push(x),
        !left.contains(x) ==> without(left, x) == left,
{
    lemma_without_absent(placed, x);
    lemma_kept_add(left, placed, other_than(x));
    lemma_kept_add(left + placed, seq![x], other_than(x));
    lemma_kept_none(seq![x], other_than(x));
    assert((left + placed).push(x) =~= (left + placed) + seq![x]);
    assert(without((left + placed).push(x), x) =~= without(left + placed, x));
    assert((without(left, x) + placed).push(x) =~= without(left, x) + placed.push(x));
    if !left.contains(x) {
        lemma_without_absent(left, x);
    }
}

} // verus!
