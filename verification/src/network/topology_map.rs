//! What a node knows of the links of the others.

use std::collections::{BTreeMap, HashSet, VecDeque};

use vstd::prelude::*;

use crate::ids::{ascending, ids_of, law_ascending};
use crate::persistence::since;
use crate::single::Single;

verus! {

broadcast use vstd::std_specs::hash::group_hash_axioms;

/// A one-way link between two nodes, by their positions in the network.
#[derive(Debug, Clone, Copy, PartialEq, Eq, Structural)]
pub struct Link {
    pub from: usize,
    pub to: usize,
    pub active: bool,
    pub virtual_link: bool,
}

/// One node's links, as last heard of.
#[derive(Debug)]
pub struct NodeSnapshot {
    pub node_id: u32,
    pub neighbors: Vec<u32>,
    /// The tick at which the node sent it.
    pub timestamp: u64,
    /// One from a direct neighbour, less for every relay.
    pub confidence: Single,
}

#[verifier::ext_equal]
pub struct NodeSnapshotView {
    pub node_id: u32,
    pub neighbors: Seq<u32>,
    pub timestamp: u64,
    pub confidence: Single,
}

impl View for NodeSnapshot {
    type V = NodeSnapshotView;

    open spec fn view(&self) -> NodeSnapshotView {
        NodeSnapshotView {
            node_id: self.node_id,
            neighbors: self.neighbors@,
            timestamp: self.timestamp,
            confidence: self.confidence,
        }
    }
}

impl Clone for NodeSnapshot {
    fn clone(&self) -> (s: Self)
        ensures
            s@ == self@,
    {
        NodeSnapshot {
            node_id: self.node_id,
            neighbors: self.neighbors.clone(),
            timestamp: self.timestamp,
            confidence: self.confidence,
        }
    }
}

/// The map that a node keeps of the network.
pub struct TopologyMap {
    pub snapshots: BTreeMap<u32, NodeSnapshot>,
    pub last_updated: u64,
}

#[verifier::ext_equal]
pub struct TopologyView {
    pub snapshots: Map<u32, NodeSnapshotView>,
    pub last_updated: u64,
}

impl View for TopologyMap {
    type V = TopologyView;

    open spec fn view(&self) -> TopologyView {
        TopologyView {
            snapshots: self.snapshots@.map_values(|s: NodeSnapshot| s@),
            last_updated: self.last_updated,
        }
    }
}

impl TopologyView {
    /// `b` is a neighbour of `a` on the map, and one may go there.
    pub open spec fn step(self, a: u32, b: u32, excluded: Set<u32>) -> bool {
        &&& self.snapshots.contains_key(a)
        &&& self.snapshots[a].neighbors.contains(b)
        &&& !excluded.contains(b)
    }

    /// `path` leads from `from` along the map's links.
    pub open spec fn path(self, path: Seq<u32>, from: u32, excluded: Set<u32>) -> bool {
        &&& path.len() > 0
        &&& path[0] == from
        &&& forall|i: int| 0 <= i < path.len() - 1 ==> self.step(#[trigger] path[i], path[i + 1], excluded)
    }

    /// `path` leads from `from` to `to`.
    pub open spec fn joins(self, path: Seq<u32>, from: u32, to: u32, excluded: Set<u32>) -> bool {
        self.path(path, from, excluded) && path.last() == to
    }

    /// Some path leads from `from` to `to`.
    pub open spec fn reachable(self, from: u32, to: u32, excluded: Set<u32>) -> bool {
        exists|path: Seq<u32>| self.joins(path, from, to, excluded)
    }

    /// The map after hearing of `snapshot`: it replaces what is older.
    pub open spec fn merged(self, snapshot: NodeSnapshotView, current_tick: u64) -> TopologyView {
        if self.snapshots.contains_key(snapshot.node_id)
            && snapshot.timestamp <= self.snapshots[snapshot.node_id].timestamp {
            self
        } else {
            TopologyView {
                snapshots: self.snapshots.insert(snapshot.node_id, snapshot),
                last_updated: current_tick,
            }
        }
    }

    /// The nodes that have been silent for more than `ttl` ticks, by ascending id.
    pub open spec fn stale(self, current_tick: u64, ttl: u64) -> Seq<u32> {
        ascending(self.snapshots.dom()).filter(
            |id: u32| since(current_tick, self.snapshots[id].timestamp) > ttl,
        )
    }
}

/// No set of ids has more members than there are ids.
pub proof fn lemma_ids_bounded(s: Set<u32>)
    requires
        s.finite(),
    ensures
        s.len() <= 0x1_0000_0000,
{
    let wide = s.map(|x: u32| x as int);
    let all = vstd::set_lib::set_int_range(0, 0x1_0000_0000);
    vstd::set_lib::lemma_int_range(0, 0x1_0000_0000);
    vstd::set_lib::lemma_map_size(s, wide, |x: u32| x as int);
    assert(wide.subset_of(all));
    vstd::set_lib::lemma_len_subset(wide, all);
}

impl TopologyMap {
    pub fn new() -> (m: Self)
        ensures
            m@ == (TopologyView { snapshots: Map::empty(), last_updated: 0 }),
    {
        let m = TopologyMap { snapshots: BTreeMap::new(), last_updated: 0 };
        assert(m@.snapshots =~= Map::empty());
        m
    }

    /// Takes a snapshot in, if it is newer than what is known.
    pub fn merge(&mut self, snapshot: NodeSnapshot, current_tick: u64)
        ensures
            final(self)@ == old(self)@.merged(snapshot@, current_tick),
    {
        let should_update: bool = match self.snapshots.get(&snapshot.node_id) {
            None => true,
            Some(existing) => snapshot.timestamp > existing.timestamp,
        };
        if should_update {
            let ghost new = snapshot@;
            self.snapshots.insert(snapshot.node_id, snapshot);
            self.last_updated = current_tick;
            assert(self@.snapshots =~= old(self)@.snapshots.insert(new.node_id, new));
        }
    }

    /// The nodes that have been silent for more than `ttl` ticks.
    pub fn detect_stale_nodes(&self, current_tick: u64, ttl: u64) -> (ids: Vec<u32>)
        ensures
            ids@ == self@.stale(current_tick, ttl),
    {
        let mut ids: Vec<u32> = Vec::new();
        let known = ids_of(&self.snapshots);
        let mut i: usize = 0;
        let ghost order = known@;
        let ghost late = |id: u32| since(current_tick, self@.snapshots[id].timestamp) > ttl;
        proof {
            reveal(Seq::filter);
            assert(self.snapshots@.dom() =~= self@.snapshots.dom());
            assert(order.take(0) =~= seq![]);
            assert(ids@ =~= order.take(0).filter(late));
        }
        while i < known.len()
            invariant
                i <= order.len(),
                order == known@,
                forall|k: int| 0 <= k < order.len() ==> self.snapshots@.contains_key(#[trigger] order[k]),
                late == (|id: u32| since(current_tick, self@.snapshots[id].timestamp) > ttl),
                ids@ == order.take(i as int).filter(late),
            decreases order.len() - i,
        {
            let id: u32 = known[i];
            proof {
                assert(order.take(i + 1) =~= order.take(i as int).push(id));
                lemma_filter_push(order.take(i as int), id, late);
                assert(self.snapshots@.contains_key(order[i as int]));
            }
            match self.snapshots.get(&id) {
                Some(snap) => {
                    if current_tick.saturating_sub(snap.timestamp) > ttl {
                        ids.push(id);
                    }
                },
                None => {},
            }
            i = i + 1;
        }
        assert(order.take(i as int) =~= order);
        ids
    }
}

/// The state of a breadth-first search: `queue` holds the paths still to be followed, `done` the
/// nodes that have been followed already.
pub open spec fn searching(
    map: TopologyView,
    from: u32,
    to: u32,
    excluded: Set<u32>,
    visited: Set<u32>,
    done: Set<u32>,
    queue: Seq<Seq<u32>>,
) -> bool {
    &&& visited.contains(from)
    // Every waiting path is a shortest one.
    &&& forall|i: int| #![trigger queue[i]] 0 <= i < queue.len() ==> {
        &&& map.path(queue[i], from, excluded)
        &&& visited.contains(queue[i].last())
        &&& shortest(map, queue[i], from, excluded)
    }
    // They wait in the order of their lengths, which differ by one at most.
    &&& forall|i: int, j: int| #![trigger queue[i], queue[j]] 0 <= i <= j < queue.len() ==> queue[i].len()
        <= queue[j].len() <= queue[0].len() + 1
    // What was visited is done or waits.
    &&& forall|v: u32| #[trigger] visited.contains(v) ==> done.contains(v) || waits(queue, v)
    // From what is done, every next node was visited.
    &&& forall|v: u32| #[trigger] done.contains(v) ==> v != to
    &&& forall|v: u32, w: u32| done.contains(v) && #[trigger] map.step(v, w, excluded) ==> visited.contains(w)
    // All that is as near as the first waiting path was visited.
    &&& queue.len() > 0 ==> forall|p: Seq<u32>| #[trigger] map.path(p, from, excluded) && p.len()
        <= queue[0].len() ==> visited.contains(p.last())
}

pub open spec fn waits(queue: Seq<Seq<u32>>, v: u32) -> bool {
    exists|i: int| 0 <= i < queue.len() && (#[trigger] queue[i]).last() == v
}

/// No path to the same node is shorter.
pub open spec fn shortest(map: TopologyView, path: Seq<u32>, from: u32, excluded: Set<u32>) -> bool {
    forall|p: Seq<u32>| #[trigger] map.path(p, from, excluded) && p.last() == path.last() ==> path.len() <= p.len()
}

proof fn lemma_search_start(map: TopologyView, from: u32, to: u32, excluded: Set<u32>)
    ensures
        searching(map, from, to, excluded, set![from], set![], seq![seq![from]]),
{
    let queue = seq![seq![from]];
    assert(queue[0].last() == from);
    assert(waits(queue, from));
    assert forall|p: Seq<u32>| #[trigger] map.path(p, from, excluded) && p.len() <= 1 implies p.last() == from by {
        assert(p.last() == p[0]);
    }
}

/// The search finds a new node `v` next to the end of the first path.
proof fn lemma_search_push(
    map: TopologyView,
    from: u32,
    to: u32,
    excluded: Set<u32>,
    visited: Set<u32>,
    done: Set<u32>,
    queue: Seq<Seq<u32>>,
    v: u32,
)
    requires
        searching(map, from, to, excluded, visited, done, queue),
        queue.len() > 0,
        map.step(queue[0].last(), v, excluded),
        !visited.contains(v),
    ensures
        searching(map, from, to, excluded, visited.insert(v), done, queue.push(queue[0].push(v))),
{
    let first = queue[0];
    let path = first.push(v);
    let longer = queue.push(path);
    let more = visited.insert(v);
    assert(map.path(first, from, excluded));
    assert(path.last() == v);
    assert forall|i: int| 0 <= i < path.len() - 1 implies map.step(#[trigger] path[i], path[i + 1], excluded) by {
        if i < first.len() - 1 {
            assert(path[i] == first[i] && path[i + 1] == first[i + 1]);
        } else {
            assert(path[i] == first.last());
        }
    }
    assert(shortest(map, path, from, excluded));
    assert(longer[longer.len() - 1] == path);
    assert forall|w: u32| #[trigger] more.contains(w) implies done.contains(w) || waits(longer, w) by {
        if w == v {
            assert(longer[longer.len() - 1].last() == v);
        } else {
            assert(visited.contains(w));
            if waits(queue, w) {
                let i = choose|i: int| 0 <= i < queue.len() && (#[trigger] queue[i]).last() == w;
                assert(longer[i].last() == w);
            }
        }
    }
    assert forall|i: int| #![trigger longer[i]] 0 <= i < longer.len() implies {
        &&& map.path(longer[i], from, excluded)
        &&& more.contains(longer[i].last())
        &&& shortest(map, longer[i], from, excluded)
    } by {
        if i < queue.len() {
            assert(longer[i] == queue[i]);
        }
    }
    assert forall|i: int, j: int| #![trigger longer[i], longer[j]] 0 <= i <= j < longer.len() implies longer[i].len()
        <= longer[j].len() <= longer[0].len() + 1 by {
        assert(longer[0] == queue[0]);
        if i < queue.len() {
            assert(longer[i] == queue[i]);
            assert(queue[0].len() <= queue[i].len() <= queue[0].len() + 1);
        }
        if j < queue.len() {
            assert(longer[j] == queue[j]);
        }
    }
}

/// The search is through with the end of the first path.
proof fn lemma_search_pop(
    map: TopologyView,
    from: u32,
    to: u32,
    excluded: Set<u32>,
    visited: Set<u32>,
    done: Set<u32>,
    queue: Seq<Seq<u32>>,
)
    requires
        searching(map, from, to, excluded, visited, done, queue),
        queue.len() > 0,
        queue[0].last() != to,
        forall|w: u32| #[trigger] map.step(queue[0].last(), w, excluded) ==> visited.contains(w),
    ensures
        searching(map, from, to, excluded, visited, done.insert(queue[0].last()), queue.drop_first()),
{
    let first = queue[0];
    let cur = first.last();
    let rest = queue.drop_first();
    let through = done.insert(cur);
    assert forall|i: int| #![trigger rest[i]] 0 <= i < rest.len() implies {
        &&& map.path(rest[i], from, excluded)
        &&& visited.contains(rest[i].last())
        &&& shortest(map, rest[i], from, excluded)
    } by {
        assert(rest[i] == queue[i + 1]);
    }
    assert forall|i: int, j: int| #![trigger rest[i], rest[j]] 0 <= i <= j < rest.len() implies rest[i].len()
        <= rest[j].len() <= rest[0].len() + 1 by {
        assert(rest[i] == queue[i + 1] && rest[j] == queue[j + 1] && rest[0] == queue[1]);
        assert(queue[0].len() <= queue[1].len());
    }
    assert forall|v: u32| #[trigger] visited.contains(v) implies through.contains(v) || waits(rest, v) by {
        if !done.contains(v) && v != cur {
            let i = choose|i: int| 0 <= i < queue.len() && (#[trigger] queue[i]).last() == v;
            assert(rest[i - 1].last() == v);
        }
    }
    if rest.len() > 0 {
        let near = first.len();
        assert(rest[0] == queue[1]);
        assert(near <= queue[1].len() <= near + 1);
        assert forall|p: Seq<u32>| #[trigger] map.path(p, from, excluded) && p.len() <= rest[0].len() implies visited.contains(
            p.last(),
        ) by {
            if p.len() > near {
                let q = p.drop_last();
                let u = q.last();
                assert(map.path(q, from, excluded)) by {
                    assert forall|i: int| 0 <= i < q.len() - 1 implies map.step(#[trigger] q[i], q[i + 1], excluded) by {
                        assert(p[i] == q[i] && p[i + 1] == q[i + 1]);
                    }
                }
                assert(visited.contains(u));
                if !through.contains(u) {
                    let i = choose|i: int| 0 <= i < rest.len() && (#[trigger] rest[i]).last() == u;
                    assert(rest[i] == queue[i + 1]);
                    assert(rest[0].len() <= rest[i].len());
                    assert(shortest(map, rest[i], from, excluded));
                    assert(false);
                }
                assert(p[p.len() - 2] == u);
                assert(map.step(p[p.len() - 2], p[p.len() - 2 + 1], excluded));
            }
        }
    }
}

/// A search that has run dry shows that there is no way.
proof fn lemma_search_dry(
    map: TopologyView,
    from: u32,
    to: u32,
    excluded: Set<u32>,
    visited: Set<u32>,
    done: Set<u32>,
    path: Seq<u32>,
)
    requires
        searching(map, from, to, excluded, visited, done, seq![]),
        map.path(path, from, excluded),
    ensures
        done.contains(path.last()),
    decreases path.len(),
{
    let v = path.last();
    if path.len() > 1 {
        let before = path.drop_last();
        assert(map.path(before, from, excluded)) by {
            assert forall|i: int| 0 <= i < before.len() - 1 implies map.step(#[trigger] before[i], before[i + 1], excluded) by {
                assert(path[i] == before[i] && path[i + 1] == before[i + 1]);
            }
        }
        lemma_search_dry(map, from, to, excluded, visited, done, before);
        assert(path[path.len() - 2] == before.last());
        assert(map.step(path[path.len() - 2], path[path.len() - 2 + 1], excluded));
    }
    assert(visited.contains(v));
    assert(!waits(seq![], v));
}

impl TopologyMap {
    /// A shortest way from `from` to `to` on the map that enters no excluded node, if there is a
    /// way at all.
    pub fn find_path(&self, from: u32, to: u32, excluded: &HashSet<u32>) -> (found: Option<Vec<u32>>)
        ensures
            found is Some <==> self@.reachable(from, to, excluded@),
            found matches Some(path) ==> self@.joins(path@, from, to, excluded@) && shortest(
                self@,
                path@,
                from,
                excluded@,
            ),
    {
        let mut visited: HashSet<u32> = HashSet::new();
        let mut queue: VecDeque<Vec<u32>> = VecDeque::new();
        queue.push_back(vec![from]);
        visited.insert(from);
        let ghost map = self@;
        let ghost mut done: Set<u32> = set![];
        proof {
            lemma_search_start(map, from, to, excluded@);
            assert(visited@ =~= set![from]);
            assert(queue@[0]@ =~= seq![from]);
            assert(paths(queue@) =~= seq![seq![from]]);
        }
        while queue.len() > 0
            invariant
                map == self@,
                visited@.finite(),
                searching(map, from, to, excluded@, visited@, done, paths(queue@)),
            decreases 0x1_0000_0000 - visited@.len() + queue@.len(),
        {
            let ghost waiting = paths(queue@);
            let ghost measure = 0x1_0000_0000 - visited@.len() + queue@.len();
            proof {
                lemma_ids_bounded(visited@);
            }
            let path: Vec<u32> = match queue.pop_front() {
                Some(p) => p,
                None => {
                    return None;
                },
            };
            proof {
                assert(waiting[0] == path@);
                assert(waiting =~= seq![path@] + paths(queue@));
                assert(map.path(waiting[0], from, excluded@));
            }
            let current: u32 = path[path.len() - 1];
            if current == to {
                assert(shortest(map, waiting[0], from, excluded@));
                assert(map.joins(path@, from, to, excluded@));
                return Some(path);
            }
            match self.snapshots.get(&current) {
                Some(snap) => {
                    let mut k: usize = 0;
                    while k < snap.neighbors.len()
                        invariant
                            map == self@,
                            k <= snap.neighbors@.len(),
                            path@.len() > 0,
                            current == path@.last(),
                            map.snapshots.contains_key(current),
                            map.snapshots[current] == snap@,
                            visited@.finite(),
                            searching(map, from, to, excluded@, visited@, done, seq![path@] + paths(queue@)),
                            forall|i: int|
                                0 <= i < k && !excluded@.contains(#[trigger] snap.neighbors@[i]) ==> visited@.contains(
                                    snap.neighbors@[i],
                                ),
                            measure - 1 == 0x1_0000_0000 - visited@.len() + queue@.len(),
                        decreases snap.neighbors@.len() - k,
                    {
                        let neighbor: u32 = snap.neighbors[k];
                        if !excluded.contains(&neighbor) && !visited.contains(&neighbor) {
                            proof {
                                let all = seq![path@] + paths(queue@);
                                assert(map.snapshots[current].neighbors.contains(neighbor));
                                assert(map.step(all[0].last(), neighbor, excluded@));
                                lemma_search_push(map, from, to, excluded@, visited@, done, all, neighbor);
                            }
                            let ghost before = queue@;
                            visited.insert(neighbor);
                            let mut new_path: Vec<u32> = path.clone();
                            new_path.push(neighbor);
                            queue.push_back(new_path);
                            proof {
                                assert(new_path@ =~= path@.push(neighbor));
                                assert(paths(queue@) =~= paths(before).push(path@.push(neighbor)));
                                assert(seq![path@] + paths(queue@) =~= (seq![path@] + paths(before)).push(
                                    (seq![path@] + paths(before))[0].push(neighbor),
                                ));
                            }
                        }
                        k = k + 1;
                    }
                    assert forall|w: u32| #[trigger] map.step(current, w, excluded@) implies visited@.contains(w) by {
                        let i = snap.neighbors@.index_of(w);
                        assert(snap.neighbors@[i] == w);
                    }
                },
                None => {},
            }
            proof {
                let all = seq![path@] + paths(queue@);
                assert(all[0] == path@);
                lemma_search_pop(map, from, to, excluded@, visited@, done, all);
                assert(all.drop_first() =~= paths(queue@));
                done = done.insert(current);
                lemma_ids_bounded(visited@);
            }
        }
        proof {
            assert(paths(queue@) =~= seq![]);
            if map.reachable(from, to, excluded@) {
                let way = choose|p: Seq<u32>| map.joins(p, from, to, excluded@);
                lemma_search_dry(map, from, to, excluded@, visited@, done, way);
            }
        }
        None
    }
}

pub open spec fn paths(queue: Seq<Vec<u32>>) -> Seq<Seq<u32>> {
    queue.map_values(|p: Vec<u32>| p@)
}

/// Filtering one element more.
pub proof fn lemma_filter_push<T>(s: Seq<T>, x: T, keep: spec_fn(T) -> bool)
    ensures
        s.push(x).filter(keep) == (if keep(x) { s.filter(keep).push(x) } else { s.filter(keep) }),
{
    reveal(Seq::filter);
    assert(s.push(x).drop_last() =~= s);
}

/// What a node knows of another is never replaced by something older.
pub proof fn law_merge_keeps_newest(map: TopologyView, snapshot: NodeSnapshotView, current_tick: u64, id: u32)
    requires
        map.snapshots.contains_key(id),
    ensures
        map.merged(snapshot, current_tick).snapshots.contains_key(id),
        map.merged(snapshot, current_tick).snapshots[id].timestamp >= map.snapshots[id].timestamp,
        snapshot.node_id == id ==> map.merged(snapshot, current_tick).snapshots[id].timestamp >= snapshot.timestamp,
{
}

/// Taking the same snapshot in twice is the same as taking it in once.
pub proof fn law_merge_once(map: TopologyView, snapshot: NodeSnapshotView, current_tick: u64)
    ensures
        map.merged(snapshot, current_tick).merged(snapshot, current_tick) == map.merged(snapshot, current_tick),
{
}

/// Stale are exactly the nodes on the map that have been silent for more than `ttl` ticks.
pub proof fn law_stale(map: TopologyView, current_tick: u64, ttl: u64, id: u32)
    ensures
        map.stale(current_tick, ttl).contains(id) <==> map.snapshots.contains_key(id) && since(
            current_tick,
            map.snapshots[id].timestamp,
        ) > ttl,
{
    let ids = ascending(map.snapshots.dom());
    let late = |id: u32| since(current_tick, map.snapshots[id].timestamp) > ttl;
    law_ascending(map.snapshots.dom());
    lemma_filter_contains(ids, late, id);
    assert(ids.contains(id) <==> map.snapshots.dom().contains(id));
}

proof fn lemma_filter_contains(s: Seq<u32>, p: spec_fn(u32) -> bool, x: u32)
    ensures
        s.filter(p).contains(x) <==> s.contains(x) && p(x),
    decreases s.len(),
{
    reveal(Seq::filter);
    if s.len() > 0 {
        let t = s.drop_last();
        lemma_filter_contains(t, p, x);
        let kept = t.filter(p);
        if s.filter(p).contains(x) {
            let i = s.filter(p).index_of(x);
            if i < kept.len() {
                assert(kept[i] == x);
                assert(s[t.index_of(x)] == x);
            } else {
                assert(s[s.len() - 1] == x);
            }
        }
        if s.contains(x) && p(x) {
            let i = s.index_of(x);
            if i < t.len() {
                assert(t[i] == x);
                assert(s.filter(p)[kept.index_of(x)] == x);
            } else {
                assert(s.filter(p)[s.filter(p).len() - 1] == x);
            }
        }
    }
}

} // verus!
