//! Going through the signals that a node holds.

use std::collections::{BTreeMap, HashSet, VecDeque};

use vstd::prelude::*;

use crate::ids::{ascending, ids_of, law_ascending, lists};
use crate::node::{NodeSignal, SignalView};
use crate::persistence::since;
use crate::single::Single;

verus! {

broadcast use vstd::std_specs::hash::group_hash_axioms;

pub open spec fn signal_views(s: Seq<NodeSignal>) -> Seq<SignalView> {
    s.map_values(|x: NodeSignal| x@)
}

/// The values behind a list of references.
pub open spec fn referred(s: Seq<&NodeSignal>) -> Seq<SignalView> {
    s.map_values(|x: &NodeSignal| x@)
}

/// The signals of each neighbour.
pub open spec fn told(m: Map<u32, VecDeque<NodeSignal>>) -> Map<u32, Seq<SignalView>> {
    m.map_values(|q: VecDeque<NodeSignal>| signal_views(q@))
}

/// The lists of the first `n` ids, one after the other.
pub open spec fn joined(m: Map<u32, Seq<SignalView>>, ids: Seq<u32>, n: nat) -> Seq<SignalView>
    decreases n,
{
    if n == 0 {
        seq![]
    } else {
        joined(m, ids, (n - 1) as nat) + m[ids[n - 1]]
    }
}

/// All signals, by ascending neighbour and then in the order in which they came.
pub open spec fn all_of(m: Map<u32, Seq<SignalView>>) -> Seq<SignalView> {
    joined(m, ascending(m.dom()), ascending(m.dom()).len())
}

/// The signal is not older than `ttl` ticks.
pub open spec fn fresh(s: SignalView, current_tick: u64, ttl: u64) -> bool {
    since(current_tick, s.timestamp) <= ttl
}

pub open spec fn fresh_of(s: Seq<SignalView>, current_tick: u64, ttl: u64) -> Seq<SignalView> {
    s.filter(|x: SignalView| fresh(x, current_tick, ttl))
}

/// The newest signal of each source; of equally new ones the first.
pub open spec fn latest(s: Seq<SignalView>) -> Map<u32, SignalView>
    decreases s.len(),
{
    if s.len() == 0 {
        Map::empty()
    } else {
        let before = latest(s.drop_last());
        let x = s.last();
        if !before.contains_key(x.source_id) || x.timestamp > before[x.source_id].timestamp {
            before.insert(x.source_id, x)
        } else {
            before
        }
    }
}

/// The values by ascending key.
pub open spec fn in_order(m: Map<u32, SignalView>) -> Seq<SignalView> {
    ascending(m.dom()).map_values(|id: u32| m[id])
}

/// The newest signal of each source, by ascending source.
pub open spec fn newest(s: Seq<SignalView>) -> Seq<SignalView> {
    in_order(latest(s))
}

/// Who sent any of the signals.
pub open spec fn sources(s: Seq<SignalView>) -> Set<u32> {
    s.map_values(|x: SignalView| x.source_id).to_set()
}

/// The sum of whole numbers, one for each signal.
pub open spec fn total(s: Seq<SignalView>, f: spec_fn(SignalView) -> nat) -> nat
    decreases s.len(),
{
    if s.len() == 0 {
        0
    } else {
        total(s.drop_last(), f) + f(s.last())
    }
}

/// The sum of single-precision numbers, one for each signal, rounded at each step.
pub open spec fn running_sum(s: Seq<SignalView>, f: spec_fn(SignalView) -> Single) -> Single
    decreases s.len(),
{
    if s.len() == 0 {
        Single { bits: 0 }
    } else {
        running_sum(s.drop_last(), f).sum(f(s.last()))
    }
}

/// The newest signal of each source is one of the signals, none of the same source is newer, and
/// every source has one.
pub proof fn law_latest(s: Seq<SignalView>)
    ensures
        forall|id: u32| #[trigger] latest(s).contains_key(id) <==> sources(s).contains(id),
        forall|id: u32| #[trigger] latest(s).contains_key(id) ==> s.contains(latest(s)[id]) && latest(s)[id].source_id
            == id,
        forall|i: int|
            0 <= i < s.len() ==> latest(s).contains_key((#[trigger] s[i]).source_id) && s[i].timestamp
                <= latest(s)[s[i].source_id].timestamp,
    decreases s.len(),
{
    let ids = s.map_values(|x: SignalView| x.source_id);
    if s.len() > 0 {
        let t = s.drop_last();
        let x = s.last();
        law_latest(t);
        let tids = t.map_values(|x: SignalView| x.source_id);
        assert(ids =~= tids.push(x.source_id));
        assert forall|id: u32| #[trigger] latest(s).contains_key(id) <==> sources(s).contains(id) by {
            if latest(s).contains_key(id) {
                if id == x.source_id {
                    assert(ids[ids.len() - 1] == id);
                } else {
                    let i = tids.index_of(id);
                    assert(ids[i] == id);
                }
            }
            if sources(s).contains(id) {
                let i = ids.index_of(id);
                if i < tids.len() {
                    assert(tids[i] == id);
                }
            }
        }
        assert forall|id: u32| #[trigger] latest(s).contains_key(id) implies s.contains(latest(s)[id])
            && latest(s)[id].source_id == id by {
            if latest(s)[id] == x {
                assert(s[s.len() - 1] == x);
            } else {
                let i = t.index_of(latest(t)[id]);
                assert(s[i] == latest(t)[id]);
            }
        }
        assert forall|i: int| 0 <= i < s.len() implies latest(s).contains_key((#[trigger] s[i]).source_id)
            && s[i].timestamp <= latest(s)[s[i].source_id].timestamp by {
            if i < t.len() {
                assert(t[i] == s[i]);
            }
        }
    }
}

/// All signals that a node holds.
pub(crate) fn all_signals<'a>(m: &'a BTreeMap<u32, VecDeque<NodeSignal>>) -> (list: Vec<&'a NodeSignal>)
    ensures
        referred(list@) == all_of(told(m@)),
{
    let mut list: Vec<&'a NodeSignal> = Vec::new();
    let known = ids_of(m);
    let mut i: usize = 0;
    let ghost ids = known@;
    proof {
        assert(told(m@).dom() =~= m@.dom());
        assert(referred(list@) =~= joined(told(m@), ids, 0));
    }
    while i < known.len()
        invariant
            i <= ids.len(),
            ids == known@,
            forall|k: int| 0 <= k < ids.len() ==> m@.contains_key(#[trigger] ids[k]),
            referred(list@) == joined(told(m@), ids, i as nat),
        decreases ids.len() - i,
    {
        assert(m@.contains_key(ids[i as int]));
        let bucket = match m.get(&known[i]) {
            Some(bucket) => bucket,
            None => {
                return list;
            },
        };
        let mut k: usize = 0;
        let ghost before = list@;
        while k < bucket.len()
            invariant
                k <= bucket@.len(),
                referred(list@) == referred(before) + signal_views(bucket@).take(k as int),
            decreases bucket@.len() - k,
        {
            let ghost shorter = list@;
            list.push(&bucket[k]);
            proof {
                assert(referred(list@) =~= referred(shorter).push(bucket@[k as int]@));
                assert(signal_views(bucket@).take(k + 1) =~= signal_views(bucket@).take(k as int).push(bucket@[k as int]@));
            }
            k = k + 1;
            assert(referred(list@) =~= referred(before) + signal_views(bucket@).take(k as int));
        }
        assert(signal_views(bucket@).take(k as int) =~= told(m@)[ids[i as int]]);
        i = i + 1;
    }
    list
}

/// Keeping one signal more.
pub(crate) proof fn lemma_filter_step(s: Seq<SignalView>, p: spec_fn(SignalView) -> bool, i: int)
    requires
        0 <= i < s.len(),
    ensures
        s.take(i + 1).filter(p) == if p(s[i]) { s.take(i).filter(p).push(s[i]) } else { s.take(i).filter(p) },
{
    reveal(Seq::filter);
    assert(s.take(i + 1).drop_last() =~= s.take(i));
}

/// The signals that `keep` keeps.
pub(crate) fn select<'a, F: Fn(&NodeSignal) -> bool>(
    list: &Vec<&'a NodeSignal>,
    keep: F,
    Ghost(p): Ghost<spec_fn(SignalView) -> bool>,
) -> (out: Vec<&'a NodeSignal>)
    requires
        forall|x: &NodeSignal| call_requires(keep, (x,)),
        forall|x: &NodeSignal, b: bool| #[trigger] call_ensures(keep, (x,), b) ==> b == p(x@),
    ensures
        referred(out@) == referred(list@).filter(p),
        out@.len() <= list@.len(),
{
    let mut out: Vec<&'a NodeSignal> = Vec::new();
    let mut i: usize = 0;
    let ghost all = referred(list@);
    proof {
        reveal(Seq::filter);
        assert(all.take(0) =~= seq![]);
        assert(referred(out@) =~= all.take(0).filter(p));
    }
    while i < list.len()
        invariant
            i <= list@.len(),
            all == referred(list@),
            out@.len() <= i,
            forall|x: &NodeSignal| call_requires(keep, (x,)),
            forall|x: &NodeSignal, b: bool| #[trigger] call_ensures(keep, (x,), b) ==> b == p(x@),
            referred(out@) == all.take(i as int).filter(p),
        decreases list@.len() - i,
    {
        let x: &'a NodeSignal = list[i];
        proof {
            lemma_filter_step(all, p, i as int);
        }
        let ghost before = out@;
        if keep(x) {
            out.push(x);
            assert(referred(out@) =~= referred(before).push(x@));
        }
        i = i + 1;
    }
    assert(all.take(i as int) =~= all);
    out
}

/// How many signals `keep` keeps.
pub(crate) fn count<'a, F: Fn(&NodeSignal) -> bool>(
    list: &Vec<&'a NodeSignal>,
    keep: F,
    Ghost(p): Ghost<spec_fn(SignalView) -> bool>,
) -> (n: usize)
    requires
        forall|x: &NodeSignal| call_requires(keep, (x,)),
        forall|x: &NodeSignal, b: bool| #[trigger] call_ensures(keep, (x,), b) ==> b == p(x@),
    ensures
        n == referred(list@).filter(p).len(),
        n <= list@.len(),
{
    let out = select(list, keep, Ghost(p));
    assert(referred(out@).len() == out@.len());
    out.len()
}

/// The signals that are not older than `ttl` ticks.
pub(crate) fn fresh_signals<'a>(list: &Vec<&'a NodeSignal>, current_tick: u64, ttl: u64) -> (out: Vec<&'a NodeSignal>)
    ensures
        referred(out@) == fresh_of(referred(list@), current_tick, ttl),
{
    let keep = |x: &NodeSignal| -> (b: bool)
        ensures
            b == fresh(x@, current_tick, ttl),
        { current_tick.saturating_sub(x.timestamp) <= ttl };
    select(list, keep, Ghost(|x: SignalView| fresh(x, current_tick, ttl)))
}

/// The newest signal of each source, by ascending source.
pub(crate) fn newest_signals<'a>(list: &Vec<&'a NodeSignal>) -> (out: Vec<&'a NodeSignal>)
    ensures
        referred(out@) == newest(referred(list@)),
        out@.len() <= 0x1_0000_0000,
{
    let mut seen: BTreeMap<u32, &'a NodeSignal> = BTreeMap::new();
    let mut i: usize = 0;
    let ghost all = referred(list@);
    proof {
        assert(all.take(0) =~= seq![]);
        assert(seen_views(seen@) =~= latest(all.take(0)));
    }
    while i < list.len()
        invariant
            i <= list@.len(),
            all == referred(list@),
            seen_views(seen@) == latest(all.take(i as int)),
        decreases list@.len() - i,
    {
        let x: &'a NodeSignal = list[i];
        let newer = match seen.get(&x.source_id) {
            Some(y) => x.timestamp > y.timestamp,
            None => true,
        };
        let ghost before = seen@;
        proof {
            assert(all.take(i + 1).drop_last() =~= all.take(i as int));
            assert(all.take(i + 1).last() == x@);
            assert(seen_views(before).contains_key(x.source_id) <==> before.contains_key(x.source_id));
        }
        if newer {
            seen.insert(x.source_id, x);
            assert(seen_views(seen@) =~= seen_views(before).insert(x.source_id, x@));
        }
        i = i + 1;
    }
    assert(all.take(i as int) =~= all);
    let mut out: Vec<&'a NodeSignal> = Vec::new();
    let known = ids_of(&seen);
    let mut k: usize = 0;
    let ghost kept = latest(all);
    let ghost ids = known@;
    proof {
        assert(kept.dom() =~= seen@.dom());
    }
    while k < known.len()
        invariant
            k <= ids.len() <= 0x1_0000_0000,
            ids == known@,
            ids == ascending(kept.dom()),
            forall|i: int| 0 <= i < ids.len() ==> seen@.contains_key(#[trigger] ids[i]),
            out@.len() == k,
            kept == seen_views(seen@),
            referred(out@) == in_order(kept).take(k as int),
        decreases ids.len() - k,
    {
        let ghost shorter = out@;
        assert(seen@.contains_key(ids[k as int]));
        match seen.get(&known[k]) {
            Some(x) => {
                out.push(*x);
            },
            None => {},
        }
        proof {
            assert(referred(out@) =~= referred(shorter).push(seen@[ids[k as int]]@));
            assert(in_order(kept)[k as int] == seen@[ids[k as int]]@);
        }
        k = k + 1;
        assert(referred(out@) =~= in_order(kept).take(k as int));
    }
    assert(in_order(kept).take(k as int) =~= in_order(kept));
    out
}

spec fn seen_views(m: Map<u32, &NodeSignal>) -> Map<u32, SignalView> {
    m.map_values(|x: &NodeSignal| x@)
}

/// How many nodes sent the signals.
pub(crate) fn count_sources(list: &Vec<&NodeSignal>) -> (n: usize)
    ensures
        n == sources(referred(list@)).len(),
{
    let mut seen: HashSet<u32> = HashSet::new();
    let mut i: usize = 0;
    let ghost ids = referred(list@).map_values(|x: SignalView| x.source_id);
    assert(seen@ =~= ids.take(0).to_set());
    while i < list.len()
        invariant
            i <= list@.len(),
            ids == referred(list@).map_values(|x: SignalView| x.source_id),
            seen@ == ids.take(i as int).to_set(),
        decreases list@.len() - i,
    {
        seen.insert(list[i].source_id);
        proof {
            let id = ids[i as int];
            let before = ids.take(i as int);
            let after = ids.take(i + 1);
            assert(after =~= before.push(id));
            assert forall|x: u32| #[trigger] after.to_set().contains(x) <==> before.to_set().insert(id).contains(x) by {
                if after.contains(x) && x != id {
                    assert(before[after.index_of(x)] == x);
                }
                if before.contains(x) {
                    assert(after[before.index_of(x)] == x);
                }
                assert(after[i as int] == id);
            }
            assert(after.to_set() =~= before.to_set().insert(id));
        }
        i = i + 1;
    }
    assert(ids.take(i as int) =~= ids);
    seen.len()
}

/// The sum of what `f` makes of each signal.
pub(crate) fn add_up<F: Fn(&NodeSignal) -> Single>(
    list: &Vec<&NodeSignal>,
    f: F,
    Ghost(g): Ghost<spec_fn(SignalView) -> Single>,
) -> (sum: Single)
    requires
        forall|x: &NodeSignal| call_requires(f, (x,)),
        forall|x: &NodeSignal, y: Single| #[trigger] call_ensures(f, (x,), y) ==> y == g(x@),
    ensures
        sum == running_sum(referred(list@), g),
{
    let mut sum = Single { bits: 0 };
    let mut i: usize = 0;
    let ghost all = referred(list@);
    while i < list.len()
        invariant
            i <= list@.len(),
            all == referred(list@),
            forall|x: &NodeSignal| call_requires(f, (x,)),
            forall|x: &NodeSignal, y: Single| #[trigger] call_ensures(f, (x,), y) ==> y == g(x@),
            sum == running_sum(all.take(i as int), g),
        decreases list@.len() - i,
    {
        sum = sum.plus(f(list[i]));
        proof {
            assert(all.take(i + 1).drop_last() =~= all.take(i as int));
        }
        i = i + 1;
    }
    assert(all.take(i as int) =~= all);
    sum
}

/// The loads of the signals as single-precision numbers, added up one by one.
pub(crate) fn add_loads(list: &Vec<&NodeSignal>) -> (sum: Single)
    ensures
        sum == running_sum(referred(list@), |x: SignalView| Single::whole(x.load as nat)),
{
    let load = |x: &NodeSignal| -> (y: Single)
        ensures
            y == Single::whole(x@.load as nat),
        { Single::from_whole(x.load as u64) };
    add_up(list, load, Ghost(|x: SignalView| Single::whole(x.load as nat)))
}

/// The sources of the signals, in order.
pub(crate) fn source_ids(list: &Vec<&NodeSignal>) -> (ids: Vec<u32>)
    ensures
        ids@ == referred(list@).map_values(|x: SignalView| x.source_id),
{
    let mut ids: Vec<u32> = Vec::new();
    let mut i: usize = 0;
    while i < list.len()
        invariant
            i <= list@.len(),
            ids@.len() == i,
            forall|k: int| 0 <= k < i ==> ids@[k] == referred(list@)[k].source_id,
        decreases list@.len() - i,
    {
        ids.push(list[i].source_id);
        i = i + 1;
    }
    assert(ids@ =~= referred(list@).map_values(|x: SignalView| x.source_id));
    ids
}

/// The newest signals are one for each source, in the order of the sources, and none of the same source
/// is newer.
pub proof fn law_newest(s: Seq<SignalView>)
    ensures
        lists(newest(s).map_values(|x: SignalView| x.source_id), sources(s)),
        forall|i: int|
            #![trigger newest(s)[i]]
            0 <= i < newest(s).len() ==> {
                &&& s.contains(newest(s)[i])
                &&& forall|k: int|
                    0 <= k < s.len() && (#[trigger] s[k]).source_id == newest(s)[i].source_id ==> s[k].timestamp
                        <= newest(s)[i].timestamp
            },
{
    let m = latest(s);
    let ids = ascending(m.dom());
    law_latest(s);
    law_ascending(m.dom());
    assert forall|i: int| 0 <= i < ids.len() implies m.contains_key(#[trigger] ids[i]) by {
        assert(ids.contains(ids[i]));
    }
    assert(newest(s).map_values(|x: SignalView| x.source_id) =~= ids);
    assert(m.dom() =~= sources(s));
}

/// Nothing that a node holds is passed over, and nothing else is taken in.
pub proof fn law_all_of(m: Map<u32, Seq<SignalView>>, x: SignalView)
    ensures
        all_of(m).contains(x) <==> exists|id: u32| #[trigger] m.contains_key(id) && m[id].contains(x),
{
    let ids = ascending(m.dom());
    law_ascending(m.dom());
    lemma_joined(m, ids, ids.len(), x);
    if all_of(m).contains(x) {
        let k = choose|k: int| 0 <= k < ids.len() && m[#[trigger] ids[k]].contains(x);
        assert(ids.contains(ids[k]));
    }
    if exists|id: u32| #[trigger] m.contains_key(id) && m[id].contains(x) {
        let id = choose|id: u32| #[trigger] m.contains_key(id) && m[id].contains(x);
        assert(ids.contains(id));
        assert(ids[ids.index_of(id)] == id);
    }
}

proof fn lemma_joined(m: Map<u32, Seq<SignalView>>, ids: Seq<u32>, n: nat, x: SignalView)
    requires
        n <= ids.len(),
    ensures
        joined(m, ids, n).contains(x) <==> exists|k: int| 0 <= k < n && m[#[trigger] ids[k]].contains(x),
    decreases n,
{
    if n > 0 {
        lemma_joined(m, ids, (n - 1) as nat, x);
        let before = joined(m, ids, (n - 1) as nat);
        let last = m[ids[n - 1]];
        let all = joined(m, ids, n);
        if all.contains(x) {
            let i = all.index_of(x);
            if i < before.len() {
                assert(before[i] == x);
            } else {
                assert(last[i - before.len()] == x);
                assert(m[ids[n - 1]].contains(x));
            }
        }
        if before.contains(x) {
            assert(all[before.index_of(x)] == x);
        }
        if last.contains(x) {
            assert(all[before.len() + last.index_of(x)] == x);
        }
    }
}

} // verus!
