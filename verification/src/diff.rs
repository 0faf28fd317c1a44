//! The diff engine: how the current state of the files differs from the
//! baseline.

use vstd::prelude::*;
use vstd::seq_lib::seq_to_set_is_finite;
use crate::models::{Baseline, DiffSummary, FileEntryView};

verus! {

/// The keys that the current state has and the baseline lacks.
pub open spec fn new_keys(
    current: Map<Seq<char>, FileEntryView>,
    baseline: Map<Seq<char>, FileEntryView>,
) -> Set<Seq<char>> {
    Set::new(|k: Seq<char>| current.contains_key(k) && !baseline.contains_key(k))
}

/// The keys that both have, with different hashes. Size and modification
/// time do not count.
pub open spec fn modified_keys(
    current: Map<Seq<char>, FileEntryView>,
    baseline: Map<Seq<char>, FileEntryView>,
) -> Set<Seq<char>> {
    Set::new(
        |k: Seq<char>|
            current.contains_key(k) && baseline.contains_key(k) && current[k].hash
                != baseline[k].hash,
    )
}

/// The keys that the baseline has and the current state lacks.
pub open spec fn deleted_keys(
    current: Map<Seq<char>, FileEntryView>,
    baseline: Map<Seq<char>, FileEntryView>,
) -> Set<Seq<char>> {
    Set::new(|k: Seq<char>| baseline.contains_key(k) && !current.contains_key(k))
}

/// Among the first `i` of a list of distinct keys, those that meet `p`.
pub open spec fn chosen(keys: Seq<Seq<char>>, i: int, p: spec_fn(Seq<char>) -> bool) -> Set<
    Seq<char>,
> {
    keys.take(i).to_set().filter(p)
}

/// Taking one more key into account adds it to the chosen ones exactly when
/// it meets the test.
proof fn lemma_chosen_step(keys: Seq<Seq<char>>, i: int, p: spec_fn(Seq<char>) -> bool)
    requires
        keys.no_duplicates(),
        0 <= i < keys.len(),
    ensures
        chosen(keys, i, p).finite(),
        chosen(keys, i + 1, p).finite(),
        chosen(keys, i + 1, p).len() == chosen(keys, i, p).len() + (if p(keys[i]) {
            1int
        } else {
            0int
        }),
{
    let t0 = keys.take(i);
    let t1 = keys.take(i + 1);
    let a = t0.to_set();
    let b = t1.to_set();
    seq_to_set_is_finite(t0);
    seq_to_set_is_finite(t1);
    a.lemma_len_filter(p);
    b.lemma_len_filter(p);
    assert(!a.contains(keys[i])) by {
        if t0.contains(keys[i]) {
            let j = t0.index_of(keys[i]);
            assert(keys[j] == keys[i]);
        }
    }
    assert(b =~= a.insert(keys[i])) by {
        assert forall|k: Seq<char>| b.contains(k) <==> a.insert(keys[i]).contains(k) by {
            if t1.contains(k) {
                let j = t1.index_of(k);
                if j < i {
                    assert(t0[j] == k);
                }
            }
            if t0.contains(k) {
                let j = t0.index_of(k);
                assert(t1[j] == k);
            }
            if k == keys[i] {
                assert(t1[i] == k);
            }
        }
    }
    if p(keys[i]) {
        assert(b.filter(p) =~= a.filter(p).insert(keys[i]));
    } else {
        assert(b.filter(p) =~= a.filter(p));
    }
}

/// Of no keys, none is chosen.
proof fn lemma_chosen_none(keys: Seq<Seq<char>>, p: spec_fn(Seq<char>) -> bool)
    ensures
        chosen(keys, 0, p).len() == 0,
        chosen(keys, 0, p).finite(),
{
    assert(keys.take(0).to_set() =~= Set::<Seq<char>>::empty());
    assert(chosen(keys, 0, p) =~= Set::<Seq<char>>::empty());
}

/// Compares the current state with the baseline.
///
/// A key that only the current state has is new; one that only the baseline
/// has is deleted; one that both have is modified when the hashes differ.
/// The state is dirty when any of the three counts is not zero.
pub fn engine_check_changes(current: &Baseline, baseline: &Baseline) -> (d: DiffSummary)
    requires
        current.wf(),
        baseline.wf(),
    ensures
        d.new_files == new_keys(current@, baseline@).len(),
        d.modified_files == modified_keys(current@, baseline@).len(),
        d.deleted_files == deleted_keys(current@, baseline@).len(),
        d.is_dirty == (d.new_files + d.modified_files + d.deleted_files > 0),
{
    let ghost is_new = |k: Seq<char>| !baseline@.contains_key(k);
    let ghost is_modified = |k: Seq<char>|
        baseline@.contains_key(k) && current@[k].hash != baseline@[k].hash;
    let ghost is_deleted = |k: Seq<char>| !current@.contains_key(k);
    let mut new_files: usize = 0;
    let mut modified_files: usize = 0;
    let mut deleted_files: usize = 0;
    proof {
        lemma_chosen_none(current.keys(), is_new);
        lemma_chosen_none(current.keys(), is_modified);
        lemma_chosen_none(baseline.keys(), is_deleted);
    }
    let mut i: usize = 0;
    while i < current.items.len()
        invariant
            i <= current.items@.len(),
            current.wf(),
            baseline.wf(),
            is_new == (|k: Seq<char>| !baseline@.contains_key(k)),
            is_modified == (|k: Seq<char>|
                baseline@.contains_key(k) && current@[k].hash != baseline@[k].hash),
            new_files + modified_files <= i,
            new_files == chosen(current.keys(), i as int, is_new).len(),
            modified_files == chosen(current.keys(), i as int, is_modified).len(),
        decreases current.items@.len() - i,
    {
        proof {
            lemma_chosen_step(current.keys(), i as int, is_new);
            lemma_chosen_step(current.keys(), i as int, is_modified);
            current.lemma_at(i as int);
        }
        match baseline.get(current.items[i].0.as_str()) {
            Some(old) => {
                if current.items[i].1.hash != old.hash {
                    modified_files += 1;
                }
            },
            None => {
                new_files += 1;
            },
        }
        i += 1;
    }
    let mut j: usize = 0;
    while j < baseline.items.len()
        invariant
            j <= baseline.items@.len(),
            current.wf(),
            baseline.wf(),
            is_deleted == (|k: Seq<char>| !current@.contains_key(k)),
            deleted_files <= j,
            deleted_files == chosen(baseline.keys(), j as int, is_deleted).len(),
        decreases baseline.items@.len() - j,
    {
        proof {
            lemma_chosen_step(baseline.keys(), j as int, is_deleted);
        }
        if !current.contains_key(baseline.items[j].0.as_str()) {
            deleted_files += 1;
        }
        j += 1;
    }
    proof {
        current.lemma_domain();
        baseline.lemma_domain();
        assert(current.keys().take(current.items@.len() as int) =~= current.keys());
        assert(baseline.keys().take(baseline.items@.len() as int) =~= baseline.keys());
        assert(chosen(current.keys(), current.items@.len() as int, is_new) =~= new_keys(
            current@,
            baseline@,
        ));
        assert(chosen(current.keys(), current.items@.len() as int, is_modified) =~= modified_keys(
            current@,
            baseline@,
        ));
        assert(chosen(baseline.keys(), baseline.items@.len() as int, is_deleted) =~= deleted_keys(
            current@,
            baseline@,
        ));
    }
    let dirty = new_files > 0 || modified_files > 0 || deleted_files > 0;
    DiffSummary {
        new_files: new_files,
        modified_files: modified_files,
        deleted_files: deleted_files,
        is_dirty: dirty,
    }
}

/// A state does not differ from itself: compared with the very state that
/// was recorded, nothing is new, modified or deleted, and the result is not
/// dirty.
pub proof fn lemma_same_state_is_clean(state: Map<Seq<char>, FileEntryView>)
    ensures
        new_keys(state, state).len() == 0,
        modified_keys(state, state).len() == 0,
        deleted_keys(state, state).len() == 0,
{
    assert(new_keys(state, state) =~= Set::<Seq<char>>::empty());
    assert(modified_keys(state, state) =~= Set::<Seq<char>>::empty());
    assert(deleted_keys(state, state) =~= Set::<Seq<char>>::empty());
}

} // verus!
