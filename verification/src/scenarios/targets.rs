//! Whom a scenario strikes.

use vstd::prelude::*;

use crate::network::topology_map::{lemma_filter_push, Link};
use crate::network::{Network, NetworkView};
use crate::node::bridges::position;
use crate::node::Mode;
use crate::scenarios::ScenarioTarget;

verus! {

/// The positions of the nodes with the first `n` ids, unknown ones left out.
pub open spec fn found(ids: Seq<u32>, all_ids: Seq<u32>, n: nat) -> Seq<usize>
    decreases n,
{
    if n == 0 {
        seq![]
    } else {
        let before = found(ids, all_ids, (n - 1) as nat);
        match position(all_ids, ids[n - 1]) {
            Some(i) => before.push(i),
            None => before,
        }
    }
}

/// The ids at the other end of the active links from a position.
pub open spec fn ids_next_to(net: NetworkView, origin: usize) -> Seq<u32> {
    net.links.filter(|l: Link| l.active && l.from == origin).map_values(|l: Link| net.ids()[l.to as int])
}

/// The positions of the nodes that are not isolated.
pub open spec fn at_large(net: NetworkView) -> Seq<usize> {
    Seq::new(net.nodes.len(), |i: int| i as usize).filter(|i: usize| net.nodes[i as int].state.mode != Mode::Isolated)
}

/// The first `count` of the positions in some order.
pub open spec fn picked(all: Seq<usize>, count: usize, picks: Seq<usize>) -> bool {
    exists|order: Seq<usize>| #[trigger]
        order.to_multiset() == all.to_multiset() && picks == order.take(
            if count < order.len() { count as int } else { order.len() as int },
        )
}

/// The positions are those of the target. With a random target they are as many as were asked for, or
/// all, of the nodes that are not isolated, in any order.
pub open spec fn resolves(target: ScenarioTarget, net: NetworkView, picks: Seq<usize>) -> bool {
    match target {
        ScenarioTarget::ById(id) => picks == found(seq![id], net.ids(), 1),
        ScenarioTarget::Ids(ids) => picks == found(ids@, net.ids(), ids@.len()),
        ScenarioTarget::Random { count } => picked(at_large(net), count, picks),
        ScenarioTarget::NeighborsOf(id) => match position(net.ids(), id) {
            Some(origin) => picks == found(ids_next_to(net, origin), net.ids(), ids_next_to(net, origin).len()),
            None => picks == Seq::<usize>::empty(),
        },
        ScenarioTarget::All => picks == Seq::new(net.nodes.len(), |i: int| i as usize),
    }
}

/// Puts the list into a random order: `SliceRandom::shuffle` of the `rand` crate with its
/// thread-local generator, `rand::rng`. Nothing is said of the order; the elements stay the same, as
/// often as they occur. Where the system gives the generator no first randomness, `rand` panics.
#[verifier::external_body]
fn shuffle(list: &mut Vec<usize>)
    ensures
        final(list)@.to_multiset() == old(list)@.to_multiset(),
{
    rand::seq::SliceRandom::shuffle(list.as_mut_slice(), &mut rand::rng());
}

/// The first `count` of a list in any order.
fn pick_first(order: Vec<usize>, count: usize, Ghost(all): Ghost<Seq<usize>>) -> (picks: Vec<usize>)
    requires
        order@.to_multiset() == all.to_multiset(),
    ensures
        picked(all, count, picks@),
{
    let ghost before = order@;
    let mut picks: Vec<usize> = order;
    picks.truncate(count);
    assert(picks@ =~= before.take(if count < before.len() { count as int } else { before.len() as int }));
    picks
}

/// The picks of a random target are distinct nodes that are not isolated, as many as were asked for
/// or all of them.
pub proof fn law_random_picks(net: NetworkView, count: usize, picks: Seq<usize>)
    requires
        net.nodes.len() <= usize::MAX,
        picked(at_large(net), count, picks),
    ensures
        picks.no_duplicates(),
        forall|k: int|
            0 <= k < picks.len() ==> (#[trigger] picks[k]) < net.nodes.len() && net.nodes[picks[k] as int].state.mode
                != Mode::Isolated,
        picks.len() == if count < at_large(net).len() { count as nat } else { at_large(net).len() },
{
    let all = at_large(net);
    let order = choose|order: Seq<usize>| #[trigger]
        order.to_multiset() == all.to_multiset() && picks == order.take(
            if count < order.len() { count as int } else { order.len() as int },
        );
    let range = Seq::new(net.nodes.len(), |i: int| i as usize);
    let keep = |i: usize| net.nodes[i as int].state.mode != Mode::Isolated;
    assert(range.no_duplicates());
    lemma_filter_distinct(range, keep);
    all.lemma_multiset_has_no_duplicates();
    all.to_multiset_ensures();
    order.to_multiset_ensures();
    order.lemma_multiset_has_no_duplicates_conv();
    assert(order.len() == all.len());
    assert forall|k: int| 0 <= k < picks.len() implies (#[trigger] picks[k]) < net.nodes.len()
        && net.nodes[picks[k] as int].state.mode != Mode::Isolated by {
        assert(picks[k] == order[k]);
        assert(order.contains(order[k]));
        assert(order.to_multiset().count(order[k]) > 0);
        assert(all.contains(order[k]));
    }
}

/// Filtering keeps distinct what is distinct, and keeps what passes.
pub(crate) proof fn lemma_filter_distinct(s: Seq<usize>, keep: spec_fn(usize) -> bool)
    requires
        s.no_duplicates(),
    ensures
        s.filter(keep).no_duplicates(),
        forall|x: usize| #[trigger] s.filter(keep).contains(x) ==> s.contains(x) && keep(x),
    decreases s.len(),
{
    reveal(Seq::filter);
    if s.len() > 0 {
        let t = s.drop_last();
        lemma_filter_distinct(t, keep);
        let kept = t.filter(keep);
        assert forall|x: usize| #[trigger] s.filter(keep).contains(x) implies s.contains(x) && keep(x) by {
            let i = s.filter(keep).index_of(x);
            if i < kept.len() {
                assert(kept[i] == x);
                assert(kept.contains(x));
                assert(s[t.index_of(x)] == x);
            } else {
                assert(s[s.len() - 1] == x);
            }
        }
        if keep(s.last()) {
            assert(!kept.contains(s.last())) by {
                if kept.contains(s.last()) {
                    let j = t.index_of(s.last());
                    assert(s[j] == s[s.len() - 1]);
                }
            }
            assert(s.filter(keep) == kept.push(s.last()));
        }
    }
}

impl ScenarioTarget {
    fn find_all(network: &Network, ids: &Vec<u32>) -> (picks: Vec<usize>)
        ensures
            picks@ == found(ids@, network@.ids(), ids@.len()),
            forall|k: int| 0 <= k < picks@.len() ==> (#[trigger] picks@[k]) < network.nodes@.len(),
    {
        let mut picks: Vec<usize> = Vec::new();
        let mut i: usize = 0;
        while i < ids.len()
            invariant
                i <= ids@.len(),
                picks@ == found(ids@, network@.ids(), i as nat),
                forall|k: int| 0 <= k < picks@.len() ==> (#[trigger] picks@[k]) < network.nodes@.len(),
            decreases ids@.len() - i,
        {
            match network.index_of(ids[i]) {
                Some(at) => {
                    picks.push(at);
                },
                None => {},
            }
            i = i + 1;
        }
        picks
    }

    /// The positions of the nodes that are meant.
    pub fn resolve(&self, network: &Network) -> (picks: Vec<usize>)
        requires
            network@.wired(),
        ensures
            resolves(*self, network@, picks@),
            forall|k: int| 0 <= k < picks@.len() ==> (#[trigger] picks@[k]) < network.nodes@.len(),
    {
        let ghost net = network@;
        match self {
            ScenarioTarget::ById(id) => {
                let ids: Vec<u32> = vec![*id];
                assert(ids@ =~= seq![*id]);
                Self::find_all(network, &ids)
            },
            ScenarioTarget::Ids(ids) => Self::find_all(network, ids),
            ScenarioTarget::Random { count } => {
                let mut list: Vec<usize> = Vec::new();
                let mut i: usize = 0;
                let ghost range = Seq::new(net.nodes.len(), |i: int| i as usize);
                let ghost keep = |i: usize| net.nodes[i as int].state.mode != Mode::Isolated;
                proof {
                    reveal(Seq::filter);
                    assert(range.take(0) =~= seq![]);
                    assert(list@ =~= range.take(0).filter(keep));
                }
                while i < network.nodes.len()
                    invariant
                        i <= network.nodes@.len(),
                        net == network@,
                        range == Seq::new(net.nodes.len(), |i: int| i as usize),
                        keep == (|i: usize| net.nodes[i as int].state.mode != Mode::Isolated),
                        list@ == range.take(i as int).filter(keep),
                    decreases network.nodes@.len() - i,
                {
                    proof {
                        assert(range[i as int] == i);
                        assert(range.take(i + 1) =~= range.take(i as int).push(i));
                        lemma_filter_push(range.take(i as int), i, keep);
                        assert(net.nodes[i as int] == network.nodes@[i as int]@);
                    }
                    if network.nodes[i].state.mode != Mode::Isolated {
                        list.push(i);
                    }
                    i = i + 1;
                }
                assert(range.take(i as int) =~= range);
                let ghost all = list@;
                assert(all == at_large(net));
                shuffle(&mut list);
                let picks = pick_first(list, *count, Ghost(all));
                proof {
                    law_random_picks(net, *count, picks@);
                }
                picks
            },
            ScenarioTarget::NeighborsOf(id) => {
                match network.index_of(*id) {
                    Some(origin) => {
                        let mut ids: Vec<u32> = Vec::new();
                        let mut i: usize = 0;
                        let ghost keep = |l: Link| l.active && l.from == origin;
                        let ghost f = |l: Link| net.ids()[l.to as int];
                        proof {
                            reveal(Seq::filter);
                            assert(net.links.take(0) =~= seq![]);
                            assert(ids@ =~= net.links.take(0).filter(keep).map_values(f));
                        }
                        while i < network.links.len()
                            invariant
                                i <= network.links@.len(),
                                net == network@,
                                net.wired(),
                                keep == (|l: Link| l.active && l.from == origin),
                                f == (|l: Link| net.ids()[l.to as int]),
                                ids@ == net.links.take(i as int).filter(keep).map_values(f),
                            decreases network.links@.len() - i,
                        {
                            let l: Link = network.links[i];
                            let ghost kept = net.links.take(i as int).filter(keep);
                            proof {
                                assert(net.links[i as int] == l);
                                assert(net.links.take(i + 1) =~= net.links.take(i as int).push(l));
                                lemma_filter_push(net.links.take(i as int), l, keep);
                            }
                            if l.active && l.from == origin {
                                ids.push(network.nodes[l.to].id);
                                assert(kept.push(l).map_values(f) =~= kept.map_values(f).push(f(l)));
                            }
                            i = i + 1;
                        }
                        assert(net.links.take(i as int) =~= net.links);
                        assert(ids@ == ids_next_to(net, origin));
                        Self::find_all(network, &ids)
                    },
                    None => Vec::new(),
                }
            },
            ScenarioTarget::All => {
                let mut picks: Vec<usize> = Vec::new();
                let mut i: usize = 0;
                while i < network.nodes.len()
                    invariant
                        i <= network.nodes@.len(),
                        picks@.len() == i,
                        forall|k: int| 0 <= k < i ==> (#[trigger] picks@[k]) == k,
                    decreases network.nodes@.len() - i,
                {
                    picks.push(i);
                    i = i + 1;
                }
                assert(picks@ =~= Seq::new(net.nodes.len(), |i: int| i as usize));
                picks
            },
        }
    }
}

} // verus!
