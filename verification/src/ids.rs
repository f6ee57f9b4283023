//! Maps by ID.

use std::collections::BTreeMap;
use vstd::prelude::*;
use vstd::std_specs::btree::increasing_seq;
use vstd::std_specs::cmp::OrdSpec;
use vstd::std_specs::iter::IteratorSpec;

verus! {

/// Whether each ID is greater than the ones before it.
pub open spec fn ascending(s: Seq<u64>) -> bool {
    forall|i: int, j: int| 0 <= i < j < s.len() ==> #[trigger] s[i] < #[trigger] s[j]
}

proof fn lemma_increasing(s: Seq<u64>)
    requires
        increasing_seq(s),
    ensures
        ascending(s),
{
    broadcast use vstd::std_specs::btree::group_btree_axioms;
    broadcast use vstd::laws_cmp::group_laws_cmp;

    assert(vstd::laws_cmp::obeys_cmp::<u64>());
    assert forall|i: int, j: int| 0 <= i < j < s.len() implies #[trigger] s[i] < #[trigger] s[j] by {
        assert(s[i].cmp_spec(&s[j]) is Less);
    }
}

/// Lists the IDs in a map, in order.
pub(crate) fn ids_in<V>(m: &BTreeMap<u64, V>) -> (r: Vec<u64>)
    ensures
        ascending(r@),
        forall|id: u64| r@.contains(id) <==> m@.contains_key(id),
{
    let mut r: Vec<u64> = Vec::new();
    let ghost all = m.iter().remaining().map_values(|kv: (&u64, &V)| *kv.0);
    for kv in it: m.iter()
        invariant
            all == it.seq().map_values(|kv: (&u64, &V)| *kv.0),
            r@ == all.take(it.index() as int),
            increasing_seq(all),
    {
        proof {
            assert(all.take(it.index() + 1) =~= r@.push(*kv.0));
        }
        r.push(*kv.0);
    }
    proof {
        broadcast use vstd::std_specs::btree::group_btree_axioms;

        lemma_increasing(all);
        assert(r@ =~= all);
        let pairs = m.iter().remaining();
        assert forall|id: u64| r@.contains(id) <==> m@.contains_key(id) by {
            if m@.contains_key(id) {
                assert(pairs.contains((&id, &m@[id])));
                let i = choose|i: int| 0 <= i < pairs.len() && pairs[i] == (&id, &m@[id]);
                assert(all[i] == id);
            }
            if r@.contains(id) {
                let i = choose|i: int| 0 <= i < r@.len() && r@[i] == id;
                assert(m@.contains_key(*pairs[i].0));
            }
        }
    }
    r
}

/// Adding a value at the end adds just that value.
pub proof fn lemma_push_contains<T>(s: Seq<T>, x: T)
    ensures
        forall|y: T| #[trigger] s.push(x).contains(y) <==> s.contains(y) || y == x,
{
    assert forall|y: T| #[trigger] s.push(x).contains(y) <==> s.contains(y) || y == x by {
        if s.contains(y) {
            let j = choose|j: int| 0 <= j < s.len() && s[j] == y;
            assert(s.push(x)[j] == y);
        }
        assert(s.push(x)[s.len() as int] == x);
    }
}

/// Taking one more value adds just that value.
pub proof fn lemma_take_contains(s: Seq<u64>, k: int)
    requires
        0 <= k < s.len(),
    ensures
        forall|x: u64| #[trigger] s.take(k + 1).contains(x) <==> s.take(k).contains(x) || x == s[k],
{
    assert(s.take(k + 1) =~= s.take(k).push(s[k]));
    lemma_push_contains(s.take(k), s[k]);
}

} // verus!
