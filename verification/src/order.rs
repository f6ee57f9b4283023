//! Stable sorting.

use vstd::prelude::*;

verus! {

/// Puts a value into a sorted sequence, after everything that may come before it.
pub open spec fn inserted<T>(s: Seq<T>, x: T, le: spec_fn(T, T) -> bool) -> Seq<T>
    decreases s.len(),
{
    if s.len() == 0 || le(s.last(), x) {
        s.push(x)
    } else {
        inserted(s.drop_last(), x, le).push(s.last())
    }
}

/// A sequence in order, with values that are level left in the order they came in.
pub open spec fn sorted<T>(s: Seq<T>, le: spec_fn(T, T) -> bool) -> Seq<T>
    decreases s.len(),
{
    if s.len() == 0 {
        s
    } else {
        inserted(sorted(s.drop_last(), le), s.last(), le)
    }
}

/// Whether any two values can be put in order, and consistently so.
pub open spec fn total_preorder<T>(le: spec_fn(T, T) -> bool) -> bool {
    &&& forall|a: T, b: T| #[trigger] le(a, b) || le(b, a)
    &&& forall|a: T, b: T, c: T| #[trigger] le(a, b) && #[trigger] le(b, c) ==> le(a, c)
}

/// Whether no value comes before one that it should come after.
pub open spec fn in_order<T>(s: Seq<T>, le: spec_fn(T, T) -> bool) -> bool {
    forall|i: int, j: int| 0 <= i < j < s.len() ==> le(#[trigger] s[i], #[trigger] s[j])
}

proof fn lemma_inserted_len<T>(s: Seq<T>, x: T, le: spec_fn(T, T) -> bool)
    ensures
        inserted(s, x, le).len() == s.len() + 1,
    decreases s.len(),
{
    if s.len() != 0 && !le(s.last(), x) {
        lemma_inserted_len(s.drop_last(), x, le);
    }
}

/// Sorting neither adds nor loses anything.
pub proof fn lemma_sorted_len<T>(s: Seq<T>, le: spec_fn(T, T) -> bool)
    ensures
        sorted(s, le).len() == s.len(),
    decreases s.len(),
{
    if s.len() != 0 {
        lemma_sorted_len(s.drop_last(), le);
        lemma_inserted_len(sorted(s.drop_last(), le), s.last(), le);
    }
}

proof fn lemma_push_multiset<T>(s: Seq<T>, x: T)
    ensures
        s.push(x).to_multiset() =~= s.to_multiset().insert(x),
{
    broadcast use vstd::seq_lib::group_to_multiset_ensures;

}

proof fn lemma_inserted_multiset<T>(s: Seq<T>, x: T, le: spec_fn(T, T) -> bool)
    ensures
        inserted(s, x, le).to_multiset() =~= s.to_multiset().insert(x),
    decreases s.len(),
{
    lemma_push_multiset(s, x);
    if s.len() != 0 && !le(s.last(), x) {
        let rest = s.drop_last();
        lemma_inserted_multiset(rest, x, le);
        lemma_push_multiset(inserted(rest, x, le), s.last());
        lemma_push_multiset(rest, s.last());
        assert(rest.push(s.last()) =~= s);
    }
}

/// Sorting only rearranges.
pub proof fn law_sorted_rearranges<T>(s: Seq<T>, le: spec_fn(T, T) -> bool)
    ensures
        sorted(s, le).to_multiset() =~= s.to_multiset(),
    decreases s.len(),
{
    if s.len() != 0 {
        law_sorted_rearranges(s.drop_last(), le);
        lemma_inserted_multiset(sorted(s.drop_last(), le), s.last(), le);
        lemma_push_multiset(s.drop_last(), s.last());
        assert(s.drop_last().push(s.last()) =~= s);
    }
}

proof fn lemma_inserted_in_order<T>(s: Seq<T>, x: T, le: spec_fn(T, T) -> bool)
    requires
        total_preorder(le),
        in_order(s, le),
    ensures
        in_order(inserted(s, x, le), le),
        forall|y: T|
            #![trigger le(x, y)]
            le(x, y) && (forall|i: int| 0 <= i < s.len() ==> le(#[trigger] s[i], y)) ==> forall|i: int|
                0 <= i < inserted(s, x, le).len() ==> le(#[trigger] inserted(s, x, le)[i], y),
    decreases s.len(),
{
    lemma_inserted_len(s, x, le);
    let r = inserted(s, x, le);
    if s.len() == 0 {
    } else if le(s.last(), x) {
        assert forall|i: int, j: int| 0 <= i < j < r.len() implies le(
            #[trigger] r[i],
            #[trigger] r[j],
        ) by {
            if j == s.len() {
                if i < s.len() - 1 {
                    assert(le(s[i], s[s.len() - 1]));
                }
                assert(le(s.last(), x));
            }
        }
        assert forall|y: T|
            #![trigger le(x, y)]
            le(x, y) && (forall|i: int| 0 <= i < s.len() ==> le(#[trigger] s[i], y)) implies forall|
            i: int,
        | 0 <= i < r.len() ==> le(#[trigger] r[i], y) by {
            assert forall|i: int| 0 <= i < r.len() implies le(#[trigger] r[i], y) by {
                if i < s.len() {
                    assert(r[i] == s[i]);
                }
            }
        }
    } else {
        let rest = s.drop_last();
        let inner = inserted(rest, x, le);
        let last = s.last();
        lemma_inserted_len(rest, x, le);
        lemma_inserted_in_order(rest, x, le);
        assert(le(x, last));
        assert forall|i: int| 0 <= i < rest.len() implies le(#[trigger] rest[i], last) by {
            assert(le(s[i], s[s.len() - 1]));
        }
        assert forall|i: int, j: int| 0 <= i < j < r.len() implies le(
            #[trigger] r[i],
            #[trigger] r[j],
        ) by {
            assert(r[i] == inner[i]);
            if j < inner.len() {
                assert(r[j] == inner[j]);
            }
        }
        assert forall|y: T|
            #![trigger le(x, y)]
            le(x, y) && (forall|i: int| 0 <= i < s.len() ==> le(#[trigger] s[i], y)) implies forall|
            i: int,
        | 0 <= i < r.len() ==> le(#[trigger] r[i], y) by {
            assert forall|i: int| 0 <= i < rest.len() implies le(#[trigger] rest[i], y) by {
                assert(rest[i] == s[i]);
            }
            assert forall|i: int| 0 <= i < r.len() implies le(#[trigger] r[i], y) by {
                if i < inner.len() {
                    assert(r[i] == inner[i]);
                } else {
                    assert(r[i] == s[s.len() - 1]);
                }
            }
        }
    }
}

/// Sorting puts everything in order.
pub proof fn law_sorted_in_order<T>(s: Seq<T>, le: spec_fn(T, T) -> bool)
    requires
        total_preorder(le),
    ensures
        in_order(sorted(s, le), le),
    decreases s.len(),
{
    if s.len() != 0 {
        law_sorted_in_order(s.drop_last(), le);
        lemma_inserted_in_order(sorted(s.drop_last(), le), s.last(), le);
    }
}

/// An order on what each value stands for, as an order on the values.
pub open spec fn ordered_by<A, B>(f: spec_fn(A) -> B, le: spec_fn(B, B) -> bool) -> spec_fn(
    A,
    A,
) -> bool {
    |a: A, b: A| le(f(a), f(b))
}

proof fn lemma_inserted_map<A, B>(s: Seq<A>, x: A, f: spec_fn(A) -> B, le: spec_fn(B, B) -> bool)
    ensures
        inserted(s, x, ordered_by(f, le)).map_values(f) =~= inserted(
            s.map_values(f),
            f(x),
            le,
        ),
    decreases s.len(),
{
    if s.len() != 0 {
        assert(s.map_values(f).drop_last() =~= s.drop_last().map_values(f));
        assert(s.map_values(f).last() == f(s.last()));
        lemma_inserted_map(s.drop_last(), x, f, le);
        lemma_inserted_len(s.drop_last(), x, ordered_by(f, le));
    }
}

/// Sorting by what each value stands for comes to the same as sorting what they stand for.
pub proof fn lemma_sorted_map<A, B>(s: Seq<A>, f: spec_fn(A) -> B, le: spec_fn(B, B) -> bool)
    ensures
        sorted(s, ordered_by(f, le)).map_values(f) =~= sorted(s.map_values(f), le),
    decreases s.len(),
{
    if s.len() != 0 {
        assert(s.map_values(f).drop_last() =~= s.drop_last().map_values(f));
        assert(s.map_values(f).last() == f(s.last()));
        lemma_sorted_map(s.drop_last(), f, le);
        lemma_inserted_map(sorted(s.drop_last(), ordered_by(f, le)), s.last(), f, le);
    }
}

/// Whether each value may come before the ones after it, and where two are level, did so to start
/// with.
pub open spec fn settled<T>(
    s: Seq<T>,
    le: spec_fn(T, T) -> bool,
    earlier: spec_fn(T, T) -> bool,
) -> bool {
    forall|i: int, j: int|
        0 <= i < j < s.len() ==> le(#[trigger] s[i], #[trigger] s[j]) && (le(s[j], s[i]) ==> earlier(
            s[i],
            s[j],
        ))
}

proof fn lemma_inserted_from<T>(s: Seq<T>, x: T, le: spec_fn(T, T) -> bool, i: int)
    requires
        0 <= i < inserted(s, x, le).len(),
    ensures
        inserted(s, x, le)[i] == x || s.contains(inserted(s, x, le)[i]),
    decreases s.len(),
{
    lemma_inserted_len(s, x, le);
    let r = inserted(s, x, le);
    if s.len() == 0 || le(s.last(), x) {
        if i < s.len() {
            assert(r[i] == s[i]);
        }
    } else {
        let inner = inserted(s.drop_last(), x, le);
        if i < inner.len() {
            lemma_inserted_from(s.drop_last(), x, le, i);
            if inner[i] != x {
                let k = choose|k: int| 0 <= k < s.drop_last().len() && s.drop_last()[k] == inner[i];
                assert(s[k] == r[i]);
            }
        } else {
            assert(s[s.len() - 1] == r[i]);
        }
    }
}

/// Everything sorted was there to start with.
pub proof fn lemma_sorted_from<T>(s: Seq<T>, le: spec_fn(T, T) -> bool, i: int)
    requires
        0 <= i < s.len(),
    ensures
        s.contains(sorted(s, le)[i]),
    decreases s.len(),
{
    let rest = sorted(s.drop_last(), le);
    lemma_sorted_len(s, le);
    lemma_sorted_len(s.drop_last(), le);
    lemma_inserted_from(rest, s.last(), le, i);
    let y = sorted(s, le)[i];
    if y == s.last() {
        assert(s[s.len() - 1] == y);
    } else {
        let k = choose|k: int| 0 <= k < rest.len() && rest[k] == y;
        lemma_sorted_from(s.drop_last(), le, k);
        let m = choose|m: int| 0 <= m < s.drop_last().len() && s.drop_last()[m] == y;
        assert(s[m] == y);
    }
}

proof fn lemma_inserted_settled<T>(
    s: Seq<T>,
    x: T,
    le: spec_fn(T, T) -> bool,
    earlier: spec_fn(T, T) -> bool,
)
    requires
        total_preorder(le),
        settled(s, le, earlier),
        forall|i: int| 0 <= i < s.len() ==> earlier(#[trigger] s[i], x),
    ensures
        settled(inserted(s, x, le), le, earlier),
    decreases s.len(),
{
    lemma_inserted_len(s, x, le);
    let r = inserted(s, x, le);
    if s.len() == 0 {
    } else if le(s.last(), x) {
        assert forall|i: int, j: int| 0 <= i < j < r.len() implies le(
            #[trigger] r[i],
            #[trigger] r[j],
        ) && (le(r[j], r[i]) ==> earlier(r[i], r[j])) by {
            assert(r[i] == s[i]);
            if j == s.len() {
                if i < s.len() - 1 {
                    assert(le(s[i], s[s.len() - 1]));
                }
                assert(le(s.last(), x));
            } else {
                assert(r[j] == s[j]);
            }
        }
    } else {
        let rest = s.drop_last();
        let inner = inserted(rest, x, le);
        lemma_inserted_len(rest, x, le);
        assert forall|i: int| 0 <= i < rest.len() implies earlier(#[trigger] rest[i], x) by {
            assert(rest[i] == s[i]);
        }
        lemma_inserted_settled(rest, x, le, earlier);
        assert forall|i: int, j: int| 0 <= i < j < r.len() implies le(
            #[trigger] r[i],
            #[trigger] r[j],
        ) && (le(r[j], r[i]) ==> earlier(r[i], r[j])) by {
            assert(r[i] == inner[i]);
            if j < inner.len() {
                assert(r[j] == inner[j]);
            } else {
                assert(r[j] == s[s.len() - 1]);
                lemma_inserted_from(rest, x, le, i);
                if inner[i] == x {
                    assert(le(x, s.last()) && !le(s.last(), x));
                } else {
                    let k = choose|k: int| 0 <= k < rest.len() && rest[k] == inner[i];
                    assert(s[k] == r[i]);
                    assert(le(s[k], s[s.len() - 1]));
                }
            }
        }
    }
}

/// Values that are level stay in the order they came in.
pub proof fn law_sorted_is_stable<T>(
    s: Seq<T>,
    le: spec_fn(T, T) -> bool,
    earlier: spec_fn(T, T) -> bool,
)
    requires
        total_preorder(le),
        in_order(s, earlier),
    ensures
        settled(sorted(s, le), le, earlier),
    decreases s.len(),
{
    if s.len() != 0 {
        let rest = s.drop_last();
        assert(in_order(rest, earlier)) by {
            assert forall|i: int, j: int| 0 <= i < j < rest.len() implies earlier(
                #[trigger] rest[i],
                #[trigger] rest[j],
            ) by {
                assert(earlier(s[i], s[j]));
            }
        }
        law_sorted_is_stable(rest, le, earlier);
        lemma_sorted_len(rest, le);
        assert forall|i: int| 0 <= i < sorted(rest, le).len() implies earlier(
            #[trigger] sorted(rest, le)[i],
            s.last(),
        ) by {
            lemma_sorted_from(rest, le, i);
            let k = choose|k: int| 0 <= k < rest.len() && rest[k] == sorted(rest, le)[i];
            assert(earlier(s[k], s[s.len() - 1]));
        }
        lemma_inserted_settled(sorted(rest, le), s.last(), le, earlier);
    }
}

/// Whether both positions are in something of the given length.
pub open spec fn within(len: nat, a: usize, b: usize) -> bool {
    a < len && b < len
}

/// Sorts positions by whatever they're positions in.
pub(crate) fn stable_sort<F: Fn(usize, usize) -> bool>(
    v: &Vec<usize>,
    le: F,
    Ghost(rel): Ghost<spec_fn(usize, usize) -> bool>,
) -> (r: Vec<usize>)
    requires
        forall|i: int, j: int|
            0 <= i < v@.len() && 0 <= j < v@.len() ==> #[trigger] call_requires(le, (v@[i], v@[j])),
        forall|a: usize, b: usize, c: bool| #[trigger] call_ensures(le, (a, b), c) ==> c == rel(a, b),
    ensures
        r@ == sorted(v@, rel),
{
    let mut r: Vec<usize> = Vec::new();
    let mut i: usize = 0;
    proof {
        assert(r@ =~= sorted(v@.take(0), rel));
    }
    while i < v.len()
        invariant
            i <= v@.len(),
            r@ == sorted(v@.take(i as int), rel),
            r@.len() == i,
            forall|k: int| 0 <= k < r@.len() ==> v@.contains(#[trigger] r@[k]),
            forall|i: int, j: int|
                0 <= i < v@.len() && 0 <= j < v@.len() ==> #[trigger] call_requires(
                    le,
                    (v@[i], v@[j]),
                ),
            forall|a: usize, b: usize, c: bool| #[trigger]
                call_ensures(le, (a, b), c) ==> c == rel(a, b),
        decreases v@.len() - i,
    {
        let x: usize = v[i];
        let ghost before = r@;
        let mut at: usize = r.len();
        proof {
            assert(before.take(at as int) =~= before);
            assert(inserted(before, x, rel) + before.skip(at as int) =~= inserted(before, x, rel));
        }
        while at > 0
            invariant_except_break
                at <= before.len(),
                r@ == before,
                x == v@[i as int],
                i < v@.len(),
                inserted(before, x, rel) == inserted(before.take(at as int), x, rel) + before.skip(
                    at as int,
                ),
                forall|k: int| 0 <= k < before.len() ==> v@.contains(#[trigger] before[k]),
                forall|i: int, j: int|
                    0 <= i < v@.len() && 0 <= j < v@.len() ==> #[trigger] call_requires(
                        le,
                        (v@[i], v@[j]),
                    ),
                forall|a: usize, b: usize, c: bool| #[trigger]
                    call_ensures(le, (a, b), c) ==> c == rel(a, b),
            ensures
                at <= before.len(),
                r@ == before,
                inserted(before, x, rel) == before.take(at as int).push(x) + before.skip(at as int),
            decreases at,
        {
            proof {
                assert(v@.contains(before[at - 1]));
                let k = choose|k: int| 0 <= k < v@.len() && v@[k] == before[at - 1];
                assert(call_requires(le, (v@[k], v@[i as int])));
                assert(before.take(at as int).drop_last() =~= before.take(at - 1));
                assert(before.take(at as int).last() == before[at - 1]);
            }
            if le(r[at - 1], x) {
                break;
            }
            proof {
                assert(inserted(before.take(at - 1), x, rel).push(before[at - 1]) + before.skip(
                    at as int,
                ) =~= inserted(before.take(at - 1), x, rel) + before.skip(at - 1));
            }
            at -= 1;
        }
        r.insert(at, x);
        proof {
            assert(r@ =~= before.take(at as int).push(x) + before.skip(at as int));
            assert(v@.take(i + 1).drop_last() =~= v@.take(i as int));
            lemma_inserted_len(before, x, rel);
            assert forall|k: int| 0 <= k < r@.len() implies v@.contains(#[trigger] r@[k]) by {
                if k < at {
                    assert(r@[k] == before[k]);
                } else if k > at {
                    assert(r@[k] == before[k - 1]);
                } else {
                    assert(v@[i as int] == r@[k]);
                }
            }
        }
        i += 1;
    }
    proof {
        assert(v@.take(i as int) =~= v@);
    }
    r
}

/// The places in something of the given length, in order.
pub open spec fn in_place(len: nat) -> Seq<usize> {
    Seq::new(len, |i: int| i as usize)
}

/// Lists the places in something of the given length, in order.
pub(crate) fn places(len: usize) -> (r: Vec<usize>)
    ensures
        r@ == in_place(len as nat),
{
    let mut r: Vec<usize> = Vec::new();
    let mut i: usize = 0;
    while i < len
        invariant
            i <= len,
            r@ == in_place(i as nat),
        decreases len - i,
    {
        proof {
            assert(in_place(i as nat).push(i) =~= in_place((i + 1) as nat));
        }
        r.push(i);
        i += 1;
    }
    r
}

} // verus!
