//! Ids in ascending order.

use std::collections::BTreeMap;

use vstd::prelude::*;
use vstd::std_specs::btree::increasing_seq;
use vstd::std_specs::cmp::OrdSpec;
use vstd::std_specs::iter::IteratorSpec;

verus! {

pub open spec fn increasing(s: Seq<u32>) -> bool {
    forall|i: int, j: int| 0 <= i < j < s.len() ==> s[i] < s[j]
}

/// `s` lists the members of `ids` from the smallest to the largest.
pub open spec fn lists(s: Seq<u32>, ids: Set<u32>) -> bool {
    &&& increasing(s)
    &&& forall|x: u32| #[trigger] s.contains(x) <==> ids.contains(x)
}

/// The members of a finite set from the smallest to the largest.
pub open spec fn ascending(ids: Set<u32>) -> Seq<u32> {
    choose|s: Seq<u32>| lists(s, ids)
}

/// A set has one ascending list.
pub proof fn lemma_ascending_unique(s: Seq<u32>, t: Seq<u32>, ids: Set<u32>)
    requires
        lists(s, ids),
        lists(t, ids),
    ensures
        s == t,
    decreases s.len(),
{
    if s.len() == 0 {
        if t.len() > 0 {
            assert(t.contains(t[0]));
            assert(s.contains(t[0]));
        }
        assert(s =~= t);
    } else {
        let x = s.last();
        assert(s.contains(x));
        assert(t.contains(x));
        let y = t.last();
        assert(t.contains(y));
        assert(s.contains(y));
        let i = s.index_of(y);
        let j = t.index_of(x);
        assert(x == y);
        let rest = ids.remove(x);
        assert forall|z: u32| #[trigger] s.drop_last().contains(z) <==> rest.contains(z) by {
            lemma_drop_last_contains(s, z);
        }
        assert forall|z: u32| #[trigger] t.drop_last().contains(z) <==> rest.contains(z) by {
            lemma_drop_last_contains(t, z);
        }
        lemma_ascending_unique(s.drop_last(), t.drop_last(), rest);
        assert(s =~= s.drop_last().push(x));
        assert(t =~= t.drop_last().push(x));
    }
}

proof fn lemma_drop_last_contains(s: Seq<u32>, z: u32)
    requires
        increasing(s),
        s.len() > 0,
    ensures
        s.drop_last().contains(z) <==> s.contains(z) && z != s.last(),
{
    if s.drop_last().contains(z) {
        let i = s.drop_last().index_of(z);
        assert(s[i] == z);
    }
    if s.contains(z) && z != s.last() {
        let i = s.index_of(z);
        assert(s.drop_last()[i] == z);
    }
}

/// What an ascending list gives back of its set.
pub proof fn lemma_ascending_is(s: Seq<u32>, ids: Set<u32>)
    requires
        lists(s, ids),
    ensures
        ascending(ids) == s,
{
    lemma_ascending_unique(s, ascending(ids), ids);
}

/// Those of the ids that are below `n`, in ascending order.
spec fn ids_below(ids: Set<u32>, n: nat) -> Seq<u32>
    decreases n,
{
    if n == 0 {
        seq![]
    } else if ids.contains((n - 1) as u32) {
        ids_below(ids, (n - 1) as nat).push((n - 1) as u32)
    } else {
        ids_below(ids, (n - 1) as nat)
    }
}

proof fn lemma_ids_below(ids: Set<u32>, n: nat)
    requires
        n <= 0x1_0000_0000,
    ensures
        increasing(ids_below(ids, n)),
        forall|x: u32| #[trigger] ids_below(ids, n).contains(x) <==> ids.contains(x) && x < n,
    decreases n,
{
    if n > 0 {
        lemma_ids_below(ids, (n - 1) as nat);
        let before = ids_below(ids, (n - 1) as nat);
        let after = ids_below(ids, n);
        assert forall|i: int| 0 <= i < before.len() implies before[i] < n - 1 by {
            assert(before.contains(before[i]));
        }
        assert forall|x: u32| #[trigger] after.contains(x) <==> ids.contains(x) && x < n by {
            if after.contains(x) {
                let i = after.index_of(x);
                if i < before.len() {
                    assert(before[i] == x);
                    assert(before.contains(x));
                }
            }
            if ids.contains(x) && x < n {
                if x < n - 1 {
                    assert(before.contains(x));
                    assert(after[before.index_of(x)] == x);
                } else {
                    assert(after[after.len() - 1] == x);
                }
            }
        }
    }
}

/// Every set of ids can be listed in ascending order.
pub proof fn law_ascending(ids: Set<u32>)
    ensures
        lists(ascending(ids), ids),
{
    lemma_ids_below(ids, 0x1_0000_0000);
    assert(lists(ids_below(ids, 0x1_0000_0000), ids));
}

/// The first `n` of an increasing list of ids reach up to `n - 1` at least.
proof fn lemma_increasing_bounded(s: Seq<u32>, n: nat)
    requires
        increasing(s),
        n <= s.len(),
    ensures
        n > 0 ==> s[n - 1] >= n - 1,
        n <= 0x1_0000_0000,
    decreases n,
{
    if n > 1 {
        lemma_increasing_bounded(s, (n - 1) as nat);
        assert(s[n - 2] < s[n - 1]);
    }
}

/// Ids have the order that a `BTreeMap` asks of its keys.
proof fn lemma_ids_are_ordered()
    ensures
        vstd::std_specs::btree::key_obeys_cmp_spec::<u32>(),
{
    assert(vstd::laws_cmp::obeys_cmp::<u32>());
}

/// What a `BTreeMap` calls increasing is so.
proof fn lemma_in_order(s: Seq<u32>)
    requires
        increasing_seq(s),
    ensures
        increasing(s),
{
    assert(vstd::laws_cmp::obeys_cmp::<u32>());
    assert forall|i: int, j: int| 0 <= i < j < s.len() implies s[i] < s[j] by {
        assert(s[i].cmp_spec(&s[j]) is Less);
    }
}

/// The ids of a map, from the smallest to the largest.
pub fn ids_of<V>(m: &BTreeMap<u32, V>) -> (ids: Vec<u32>)
    ensures
        ids@ == ascending(m@.dom()),
        ids@.len() == m@.dom().len(),
        ids@.len() <= 0x1_0000_0000,
        forall|i: int| 0 <= i < ids@.len() ==> m@.contains_key(#[trigger] ids@[i]),
{
    proof {
        lemma_ids_are_ordered();
    }
    let pairs = m.iter();
    let ghost order = pairs.remaining().map_values(|kv: (&u32, &V)| *kv.0);
    proof {
        lemma_in_order(order);
        assert forall|x: u32| #[trigger] order.contains(x) <==> m@.dom().contains(x) by {
            if m@.contains_key(x) {
                let k = pairs.remaining().index_of((&x, &m@[x]));
                assert(order[k] == x);
            }
            if order.contains(x) {
                let k = order.index_of(x);
                assert(m@.contains_key(*pairs.remaining()[k].0));
            }
        }
        lemma_ascending_is(order, m@.dom());
        lemma_increasing_bounded(order, order.len());
    }
    let mut ids: Vec<u32> = Vec::new();
    for kv in it: pairs
        invariant
            order == it.seq().map_values(|kv: (&u32, &V)| *kv.0),
            ids@ == order.take(it.index()),
    {
        ids.push(*kv.0);
        assert(ids@ =~= order.take(it.index() + 1));
    }
    proof {
        assert(order.take(order.len() as int) =~= order);
        assert forall|i: int| 0 <= i < ids@.len() implies m@.contains_key(#[trigger] ids@[i]) by {
            assert(order.contains(ids@[i]));
        }
    }
    ids
}

} // verus!
