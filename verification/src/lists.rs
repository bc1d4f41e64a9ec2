//! Going through lists.

use vstd::prelude::*;

verus! {

/// Something is in a filtered list exactly if it is in the list and passes.
pub proof fn lemma_filtered<T>(s: Seq<T>, keep: spec_fn(T) -> bool, x: T)
    ensures
        s.filter(keep).contains(x) <==> s.contains(x) && keep(x),
    decreases s.len(),
{
    reveal(Seq::filter);
    if s.len() > 0 {
        let t = s.drop_last();
        lemma_filtered(t, keep, x);
        if s.contains(x) {
            let i = s.index_of(x);
            if i < t.len() {
                assert(t[i] == x);
            }
        }
        if t.contains(x) {
            assert(s[t.index_of(x)] == x);
        }
        let kept = t.filter(keep);
        let all = s.filter(keep);
        if kept.contains(x) {
            assert(all[kept.index_of(x)] == x);
        }
        if all.contains(x) {
            let i = all.index_of(x);
            if i < kept.len() {
                assert(kept[i] == x);
            } else {
                assert(s[s.len() - 1] == x);
            }
        }
        if x == s.last() && keep(x) {
            assert(all[all.len() - 1] == x);
            assert(s[s.len() - 1] == x);
        }
    }
}

/// Two filters that agree on a list give the same.
pub proof fn lemma_filters_agree<T>(s: Seq<T>, p: spec_fn(T) -> bool, q: spec_fn(T) -> bool)
    requires
        forall|i: int| 0 <= i < s.len() ==> p(#[trigger] s[i]) == q(s[i]),
    ensures
        s.filter(p) == s.filter(q),
    decreases s.len(),
{
    reveal(Seq::filter);
    if s.len() > 0 {
        let t = s.drop_last();
        assert forall|i: int| 0 <= i < t.len() implies p(#[trigger] t[i]) == q(t[i]) by {
            assert(t[i] == s[i]);
        }
        lemma_filters_agree(t, p, q);
        assert(p(s[s.len() - 1]) == q(s[s.len() - 1]));
    }
}

/// A filter that nothing passes leaves nothing.
pub proof fn lemma_none_pass<T>(s: Seq<T>, keep: spec_fn(T) -> bool)
    ensures
        s.filter(keep).len() == 0 <==> forall|i: int| 0 <= i < s.len() ==> !keep(#[trigger] s[i]),
{
    if s.filter(keep).len() > 0 {
        let x = s.filter(keep)[0];
        assert(s.filter(keep).contains(x));
        lemma_filtered(s, keep, x);
        assert(keep(s[s.index_of(x)]));
    }
    if exists|i: int| 0 <= i < s.len() && keep(#[trigger] s[i]) {
        let i = choose|i: int| 0 <= i < s.len() && keep(#[trigger] s[i]);
        assert(s.contains(s[i]));
        lemma_filtered(s, keep, s[i]);
        assert(s.filter(keep)[s.filter(keep).index_of(s[i])] == s[i]);
    }
}

} // verus!
