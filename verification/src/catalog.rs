//! The list of sets as it is shown: newest first.

use vstd::prelude::*;
use vstd::seq_lib::{to_multiset_build, to_multiset_insert};
use crate::models::{SetManifest, SetManifestView};
use crate::scan::views;

verus! {

/// The sets are in the order of display: none is older than the one after
/// it.
pub open spec fn newest_first(sets: Seq<SetManifestView>) -> bool {
    forall|i: int, j: int|
        0 <= i < j < sets.len() ==> (#[trigger] sets[i]).created_at >= (#[trigger] sets[j]).created_at
}

/// The place of a set created at `created_at` in a list that is newest
/// first: behind the last set that is not older than it.
pub open spec fn slot_for(sorted: Seq<SetManifestView>, created_at: u64) -> int
    decreases sorted.len(),
{
    if sorted.len() == 0 {
        0
    } else if sorted.last().created_at >= created_at {
        sorted.len() as int
    } else {
        slot_for(sorted.drop_last(), created_at)
    }
}

/// The list with one more set put at its place.
pub open spec fn placed(sorted: Seq<SetManifestView>, set: SetManifestView) -> Seq<SetManifestView> {
    sorted.insert(slot_for(sorted, set.created_at), set)
}

/// The sets in the order of display: newest first, and sets of the same age
/// in the order in which they were given.
pub open spec fn display_order(sets: Seq<SetManifestView>) -> Seq<SetManifestView>
    decreases sets.len(),
{
    if sets.len() == 0 {
        Seq::empty()
    } else {
        placed(display_order(sets.drop_last()), sets.last())
    }
}

/// The place of a set lies within the list, behind every set that is not
/// older and before the older ones that follow.
pub proof fn lemma_slot(sorted: Seq<SetManifestView>, created_at: u64)
    ensures
        0 <= slot_for(sorted, created_at) <= sorted.len(),
        forall|k: int|
            slot_for(sorted, created_at) <= k < sorted.len() ==> (#[trigger] sorted[k]).created_at
                < created_at,
        slot_for(sorted, created_at) > 0 ==> sorted[slot_for(sorted, created_at) - 1].created_at
            >= created_at,
    decreases sorted.len(),
{
    if sorted.len() > 0 && sorted.last().created_at < created_at {
        lemma_slot(sorted.drop_last(), created_at);
        let p = slot_for(sorted.drop_last(), created_at);
        assert forall|k: int| p <= k < sorted.len() implies (#[trigger] sorted[k]).created_at
            < created_at by {
            if k < sorted.len() - 1 {
                assert(sorted.drop_last()[k] == sorted[k]);
            }
        }
        if p > 0 {
            assert(sorted.drop_last()[p - 1] == sorted[p - 1]);
        }
    }
}

/// The order of display holds the given sets, each as often as it was
/// given, and is newest first.
pub proof fn lemma_display_order(sets: Seq<SetManifestView>)
    ensures
        display_order(sets).to_multiset() == sets.to_multiset(),
        display_order(sets).len() == sets.len(),
        newest_first(display_order(sets)),
    decreases sets.len(),
{
    if sets.len() == 0 {
        assert(display_order(sets) =~= sets);
    } else {
        let rest = sets.drop_last();
        let x = sets.last();
        lemma_display_order(rest);
        let sorted = display_order(rest);
        let p = slot_for(sorted, x.created_at);
        lemma_slot(sorted, x.created_at);
        to_multiset_insert(sorted, p, x);
        to_multiset_build(rest, x);
        assert(rest.push(x) =~= sets);
        let out = placed(sorted, x);
        assert forall|i: int, j: int| 0 <= i < j < out.len() implies (#[trigger] out[i]).created_at
            >= (#[trigger] out[j]).created_at by {
            if j < p {
                assert(out[i] == sorted[i] && out[j] == sorted[j]);
            } else if j == p {
                assert(out[i] == sorted[i]);
                assert(sorted[i].created_at >= sorted[p - 1].created_at) by {
                    if i < p - 1 {
                        assert(sorted[i].created_at >= sorted[p - 1].created_at);
                    }
                }
            } else if i < p {
                assert(out[i] == sorted[i] && out[j] == sorted[j - 1]);
                if i < j - 1 {
                    assert(sorted[i].created_at >= sorted[j - 1].created_at);
                }
            } else if i == p {
                assert(out[j] == sorted[j - 1]);
                assert(sorted[j - 1].created_at < x.created_at);
            } else {
                assert(out[i] == sorted[i - 1] && out[j] == sorted[j - 1]);
                assert(sorted[i - 1].created_at >= sorted[j - 1].created_at);
            }
        }
    }
}

/// The sets in the order of display: newest first, sets of the same age in
/// the order given.
pub fn order_for_display(sets: &Vec<SetManifest>) -> (r: Vec<SetManifest>)
    ensures
        views(r@) == display_order(views(sets@)),
        newest_first(views(r@)),
        views(r@).to_multiset() == views(sets@).to_multiset(),
{
    let mut r: Vec<SetManifest> = Vec::new();
    let mut i: usize = 0;
    assert(views(r@) =~= display_order(views(sets@).take(0)));
    while i < sets.len()
        invariant
            i <= sets@.len(),
            r@.len() == i,
            views(r@) == display_order(views(sets@).take(i as int)),
        decreases sets@.len() - i,
    {
        let set = &sets[i];
        proof {
            let t = views(sets@).take(i + 1);
            assert(t.drop_last() =~= views(sets@).take(i as int));
            assert(t.last() == set@);
        }
        let mut slot: usize = r.len();
        assert(views(r@).take(slot as int) =~= views(r@));
        while slot > 0 && r[slot - 1].created_at < set.created_at
            invariant
                slot <= r@.len(),
                slot_for(views(r@), set.created_at) == slot_for(
                    views(r@).take(slot as int),
                    set.created_at,
                ),
            decreases slot,
        {
            proof {
                let t = views(r@).take(slot as int);
                assert(t.last() == r@[slot - 1]@);
                assert(t.drop_last() =~= views(r@).take(slot - 1));
            }
            slot -= 1;
        }
        proof {
            let t = views(r@).take(slot as int);
            if slot > 0 {
                assert(t.last() == r@[slot - 1]@);
            }
            assert(slot_for(t, set.created_at) == slot);
        }
        let ghost before = r@;
        let copy = set.duplicate();
        r.insert(slot, copy);
        assert(views(r@) =~= views(before).insert(slot as int, set@));
        i += 1;
    }
    proof {
        assert(views(sets@).take(sets@.len() as int) =~= views(sets@));
        lemma_display_order(views(sets@));
    }
    r
}

} // verus!
