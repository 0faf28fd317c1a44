//! The lineage resolver: the chain from a root set to a target, the children
//! of a set, and what a cascade delete takes with it.

use vstd::prelude::*;
use vstd::string::*;
use vstd::seq_lib::seq_to_set_is_finite;
use vstd::set_lib::lemma_len_subset;
use crate::models::{texts, SetManifest, SetManifestView};
use crate::scan::views;

verus! {

/// `i` is the first index whose set has the identifier `id`.
pub open spec fn is_first_with_id(sets: Seq<SetManifestView>, id: Seq<char>, i: int) -> bool {
    &&& 0 <= i < sets.len()
    &&& sets[i].id == id
    &&& forall|j: int| 0 <= j < i ==> sets[j].id != id
}

/// The set with the identifier `id`: the first one, should several have it.
pub open spec fn find_set(sets: Seq<SetManifestView>, id: Seq<char>) -> Option<SetManifestView> {
    if exists|i: int| is_first_with_id(sets, id, i) {
        Some(sets[choose|i: int| is_first_with_id(sets, id, i)])
    } else {
        None
    }
}

/// The first index that has an identifier is the one `find_set` finds.
pub proof fn lemma_find_set(sets: Seq<SetManifestView>, id: Seq<char>, i: int)
    requires
        is_first_with_id(sets, id, i),
    ensures
        find_set(sets, id) == Some(sets[i]),
{
    let k = choose|k: int| is_first_with_id(sets, id, k);
    if k < i {
        assert(sets[k].id != id);
    } else if i < k {
        assert(sets[i].id != id);
    }
}

/// The walk from `id` towards the root: `seen` followed by `id`, its parent,
/// the parent's parent and so on. The walk ends at a set without a parent,
/// at an identifier that no set has, at one that was seen before, and after
/// `fuel` steps.
pub open spec fn lineage_up(
    sets: Seq<SetManifestView>,
    id: Seq<char>,
    seen: Seq<Seq<char>>,
    fuel: nat,
) -> Seq<Seq<char>>
    decreases fuel,
{
    if fuel == 0 || seen.contains(id) {
        seen
    } else {
        match find_set(sets, id) {
            None => seen,
            Some(m) => match m.parent_id {
                None => seen.push(id),
                Some(parent) => lineage_up(sets, parent, seen.push(id), (fuel - 1) as nat),
            },
        }
    }
}

/// The chain of a target: the sets from the root down to the target, each
/// the parent of the next. A walk that visits every set once has as many
/// steps as there are sets, so that is its fuel.
pub open spec fn chain_of(sets: Seq<SetManifestView>, target: Seq<char>) -> Seq<Seq<char>> {
    lineage_up(sets, target, Seq::empty(), sets.len()).reverse()
}

/// The index of the first set with the identifier `id`, if there is one.
pub fn position_of(sets: &Vec<SetManifest>, id: &String) -> (r: Option<usize>)
    ensures
        match r {
            Some(i) => is_first_with_id(views(sets@), id@, i as int),
            None => find_set(views(sets@), id@) is None,
        },
{
    let mut i: usize = 0;
    while i < sets.len()
        invariant
            i <= sets@.len(),
            forall|j: int| 0 <= j < i ==> views(sets@)[j].id != id@,
        decreases sets@.len() - i,
    {
        if sets[i].id == *id {
            return Some(i);
        }
        i += 1;
    }
    None
}

/// Whether `id` is one of `list`.
fn seen_before(list: &Vec<String>, id: &String) -> (r: bool)
    ensures
        r == texts(list@).contains(id@),
{
    crate::models::list_has(list, id)
}

/// The chain of `target_id`: the identifiers from the root set down to the
/// target. It is empty where no set has the target's identifier; it stops
/// short, without failing, at a parent that is missing or that closes a
/// cycle.
pub fn resolve_dependencies(sets: &Vec<SetManifest>, target_id: &str) -> (chain: Vec<String>)
    ensures
        texts(chain@) == chain_of(views(sets@), target_id@),
{
    let mut stack: Vec<String> = Vec::new();
    let mut cursor: Option<String> = Some(String::from_str(target_id));
    let mut fuel: usize = sets.len();
    assert(texts(stack@) =~= Seq::<Seq<char>>::empty());
    while cursor.is_some()
        invariant
            fuel <= sets@.len(),
            lineage_up(views(sets@), target_id@, Seq::empty(), sets@.len() as nat) == (match cursor {
                Some(c) => lineage_up(views(sets@), c@, texts(stack@), fuel as nat),
                None => texts(stack@),
            }),
        decreases fuel, (if cursor is Some { 1int } else { 0int }),
    {
        let id = cursor.unwrap();
        if fuel == 0 || seen_before(&stack, &id) {
            cursor = None;
        } else {
            match position_of(sets, &id) {
                None => {
                    cursor = None;
                },
                Some(i) => {
                    proof {
                        lemma_find_set(views(sets@), id@, i as int);
                    }
                    let ghost before = stack@;
                    let next = match &sets[i].parent_id {
                        Some(p) => Some(p.clone()),
                        None => None,
                    };
                    stack.push(id);
                    assert(texts(stack@) =~= texts(before).push(id@));
                    fuel -= 1;
                    cursor = next;
                },
            }
        }
    }
    let mut chain: Vec<String> = Vec::new();
    let mut k: usize = stack.len();
    while k > 0
        invariant
            k <= stack@.len(),
            chain@.len() == stack@.len() - k,
            forall|j: int| 0 <= j < chain@.len() ==> chain@[j]@ == stack@[stack@.len() - 1 - j]@,
        decreases k,
    {
        k -= 1;
        chain.push(stack[k].clone());
    }
    assert(texts(chain@) =~= texts(stack@).reverse());
    chain
}

/// The set at index `i` is a child of `parent`.
pub open spec fn is_child_at(sets: Seq<SetManifestView>, parent: Seq<char>, i: int) -> bool {
    0 <= i < sets.len() && sets[i].parent_id == Some(parent)
}

/// The children of `parent` among `sets`: the identifiers, in order, of the
/// sets that name it as their parent.
pub open spec fn children_of(sets: Seq<SetManifestView>, parent: Seq<char>) -> Seq<Seq<char>>
    decreases sets.len(),
{
    if sets.len() == 0 {
        Seq::empty()
    } else {
        let before = children_of(sets.drop_last(), parent);
        if sets.last().parent_id == Some(parent) {
            before.push(sets.last().id)
        } else {
            before
        }
    }
}

/// Whether the set names `parent` as its parent.
fn has_parent(set: &SetManifest, parent: &String) -> (r: bool)
    ensures
        r == (set@.parent_id == Some(parent@)),
{
    match &set.parent_id {
        Some(p) => *p == *parent,
        None => false,
    }
}

/// The identifiers of the children of `parent_id`.
pub fn get_children(sets: &Vec<SetManifest>, parent_id: &str) -> (r: Vec<String>)
    ensures
        texts(r@) == children_of(views(sets@), parent_id@),
{
    let parent = String::from_str(parent_id);
    let mut r: Vec<String> = Vec::new();
    let mut i: usize = 0;
    while i < sets.len()
        invariant
            i <= sets@.len(),
            parent@ == parent_id@,
            texts(r@) == children_of(views(sets@).take(i as int), parent_id@),
        decreases sets@.len() - i,
    {
        proof {
            let t = views(sets@).take(i + 1);
            assert(t.drop_last() =~= views(sets@).take(i as int));
            assert(t.last() == sets@[i as int]@);
        }
        let ghost before = r@;
        if has_parent(&sets[i], &parent) {
            r.push(sets[i].id.clone());
            assert(texts(r@) =~= texts(before).push(sets@[i as int].id@));
        }
        i += 1;
    }
    assert(views(sets@).take(sets@.len() as int) =~= views(sets@));
    r
}

/// `to` is reached from `from` in `n` steps, each from a set's parent to the
/// set.
pub open spec fn descends_in(sets: Seq<SetManifestView>, from: Seq<char>, to: Seq<char>, n: nat) -> bool
    decreases n,
{
    if n == 0 {
        from == to
    } else {
        exists|i: int|
            0 <= i < sets.len() && (#[trigger] sets[i]).id == to && sets[i].parent_id is Some
                && descends_in(sets, from, sets[i].parent_id->0, (n - 1) as nat)
    }
}

/// `to` is `from` or one of its descendants.
pub open spec fn descends_from(sets: Seq<SetManifestView>, from: Seq<char>, to: Seq<char>) -> bool {
    exists|n: nat| descends_in(sets, from, to, n)
}

/// Every child of one of the first `done` identifiers is in the list.
pub open spec fn children_listed(sets: Seq<SetManifestView>, list: Seq<Seq<char>>, done: int) -> bool {
    forall|k: int, i: int|
        0 <= k < done && 0 <= i < sets.len() && (#[trigger] sets[i]).parent_id == Some(
            #[trigger] list[k],
        ) ==> list.contains(sets[i].id)
}

/// A list that holds `from` and the children of all it holds, holds every
/// descendant of `from`.
proof fn lemma_closed_list_holds_descendants(
    sets: Seq<SetManifestView>,
    list: Seq<Seq<char>>,
    from: Seq<char>,
    to: Seq<char>,
    n: nat,
)
    requires
        list.contains(from),
        children_listed(sets, list, list.len() as int),
        descends_in(sets, from, to, n),
    ensures
        list.contains(to),
    decreases n,
{
    if n > 0 {
        let i = choose|i: int|
            0 <= i < sets.len() && (#[trigger] sets[i]).id == to && sets[i].parent_id is Some
                && descends_in(sets, from, sets[i].parent_id->0, (n - 1) as nat);
        let p = sets[i].parent_id->0;
        lemma_closed_list_holds_descendants(sets, list, from, p, (n - 1) as nat);
        let k = list.index_of(p);
        assert(list[k] == p);
        assert(sets[i].parent_id == Some(list[k]));
    }
}

/// `child` is the identifier of a set that names `parent` as its parent.
pub open spec fn is_child(sets: Seq<SetManifestView>, parent: Seq<char>, child: Seq<char>) -> bool {
    exists|i: int| #[trigger] is_child_at(sets, parent, i) && sets[i].id == child
}

/// The identifier at index `k` of the list is a child of an earlier one.
pub open spec fn follows_parent(sets: Seq<SetManifestView>, list: Seq<Seq<char>>, k: int) -> bool {
    exists|j: int| 0 <= j < k && is_child(sets, #[trigger] list[j], list[k])
}

/// Some set has the identifier `id`.
pub open spec fn is_set_id(sets: Seq<SetManifestView>, id: Seq<char>) -> bool {
    exists|i: int| 0 <= i < sets.len() && (#[trigger] sets[i]).id == id
}

/// There are no more distinct identifiers of sets than there are sets.
pub proof fn lemma_distinct_ids_bound(sets: Seq<SetManifestView>, list: Seq<Seq<char>>)
    requires
        list.no_duplicates(),
        forall|k: int| 0 <= k < list.len() ==> is_set_id(sets, #[trigger] list[k]),
    ensures
        list.len() <= sets.len(),
{
    let ids = Seq::new(sets.len(), |i: int| sets[i].id);
    list.unique_seq_to_set();
    ids.lemma_cardinality_of_set();
    seq_to_set_is_finite(ids);
    assert(list.to_set().subset_of(ids.to_set())) by {
        assert forall|x: Seq<char>| list.to_set().contains(x) implies ids.to_set().contains(x) by {
            let k = list.index_of(x);
            assert(is_set_id(sets, list[k]));
            let i = choose|i: int| 0 <= i < sets.len() && (#[trigger] sets[i]).id == list[k];
            assert(ids[i] == x);
        }
    }
    lemma_len_subset(list.to_set(), ids.to_set());
}

/// Distinct identifiers of sets, one more allowed at the head, are at most
/// one more than there are sets.
proof fn lemma_queue_bound(sets: Seq<SetManifestView>, queue: Seq<Seq<char>>)
    requires
        queue.no_duplicates(),
        queue.len() > 0,
        forall|k: int| 1 <= k < queue.len() ==> is_set_id(sets, #[trigger] queue[k]),
    ensures
        queue.len() <= sets.len() + 1,
{
    let tail = queue.subrange(1, queue.len() as int);
    assert forall|k: int| 0 <= k < tail.len() implies is_set_id(sets, #[trigger] tail[k]) by {
        assert(tail[k] == queue[k + 1]);
    }
    lemma_distinct_ids_bound(sets, tail);
}

/// A walk that has seen distinct sets, and now comes to a set that it has
/// not seen, has seen distinct sets with that one too.
proof fn lemma_one_more_seen(
    sets: Seq<SetManifestView>,
    seen: Seq<Seq<char>>,
    id: Seq<char>,
    i: int,
)
    requires
        seen.no_duplicates(),
        forall|k: int| 0 <= k < seen.len() ==> is_set_id(sets, #[trigger] seen[k]),
        !seen.contains(id),
        0 <= i < sets.len(),
        sets[i].id == id,
    ensures
        seen.push(id).no_duplicates(),
        forall|k: int| 0 <= k < seen.push(id).len() ==> is_set_id(sets, #[trigger] seen.push(id)[k]),
{
    let next = seen.push(id);
    assert forall|a: int, b: int| 0 <= a < next.len() && 0 <= b < next.len() && a
        != b implies next[a] != next[b] by {
        if a < seen.len() && b < seen.len() {
            assert(seen[a] != seen[b]);
        } else if a == seen.len() {
            if seen[b] == id {
                assert(seen.contains(id));
            }
        } else {
            if seen[a] == id {
                assert(seen.contains(id));
            }
        }
    }
    assert forall|k: int| 0 <= k < next.len() implies is_set_id(sets, #[trigger] next[k]) by {
        if k < seen.len() {
            assert(next[k] == seen[k]);
        }
    }
}

/// A walk towards the root that has as many steps left as there are sets
/// not yet seen never runs out of fuel: with one step more it ends where it
/// ended.
pub proof fn lemma_fuel_suffices(
    sets: Seq<SetManifestView>,
    id: Seq<char>,
    seen: Seq<Seq<char>>,
    fuel: nat,
)
    requires
        seen.no_duplicates(),
        forall|k: int| 0 <= k < seen.len() ==> is_set_id(sets, #[trigger] seen[k]),
        fuel + seen.len() >= sets.len(),
    ensures
        lineage_up(sets, id, seen, fuel) == lineage_up(sets, id, seen, fuel + 1),
    decreases fuel,
{
    if !seen.contains(id) && find_set(sets, id) is Some {
        let i = choose|i: int| is_first_with_id(sets, id, i);
        let next = seen.push(id);
        lemma_one_more_seen(sets, seen, id, i);
        lemma_distinct_ids_bound(sets, next);
        if fuel > 0 {
            let m = find_set(sets, id)->0;
            if m.parent_id is Some {
                lemma_fuel_suffices(sets, m.parent_id->0, next, (fuel - 1) as nat);
            }
        }
    }
}

/// The chain of a target is made of sets, each once, ends in the target,
/// and each of its sets is the parent of the one after it.
pub proof fn lemma_lineage_is_linked(
    sets: Seq<SetManifestView>,
    id: Seq<char>,
    seen: Seq<Seq<char>>,
    fuel: nat,
)
    requires
        seen.no_duplicates(),
        forall|k: int| 0 <= k < seen.len() ==> is_set_id(sets, #[trigger] seen[k]),
        forall|k: int|
            0 <= k < seen.len() - 1 ==> (#[trigger] find_set(sets, seen[k]))->0.parent_id == Some(
                seen[k + 1],
            ),
        seen.len() > 0 ==> find_set(sets, seen.last())->0.parent_id == Some(id),
    ensures
        ({
            let line = lineage_up(sets, id, seen, fuel);
            &&& line.no_duplicates()
            &&& seen.len() <= line.len()
            &&& line.subrange(0, seen.len() as int) == seen
            &&& forall|k: int| 0 <= k < line.len() ==> is_set_id(sets, #[trigger] line[k])
            &&& forall|k: int|
                0 <= k < line.len() - 1 ==> (#[trigger] find_set(sets, line[k]))->0.parent_id
                    == Some(line[k + 1])
        }),
    decreases fuel,
{
    let line = lineage_up(sets, id, seen, fuel);
    if fuel == 0 || seen.contains(id) || find_set(sets, id) is None {
        assert(line.subrange(0, seen.len() as int) =~= seen);
    } else {
        let i = choose|i: int| is_first_with_id(sets, id, i);
        let m = find_set(sets, id)->0;
        let next = seen.push(id);
        lemma_one_more_seen(sets, seen, id, i);
        assert forall|k: int| 0 <= k < next.len() - 1 implies (#[trigger] find_set(
            sets,
            next[k],
        ))->0.parent_id == Some(next[k + 1]) by {
            if k < seen.len() - 1 {
                assert(next[k] == seen[k] && next[k + 1] == seen[k + 1]);
            } else {
                assert(next[k] == seen.last());
            }
        }
        match m.parent_id {
            None => {
                assert(line == next);
                assert(line.subrange(0, seen.len() as int) =~= seen);
            },
            Some(parent) => {
                lemma_lineage_is_linked(sets, parent, next, (fuel - 1) as nat);
                assert(line.subrange(0, next.len() as int) == next);
                assert(line.subrange(0, seen.len() as int) =~= seen) by {
                    assert forall|k: int| 0 <= k < seen.len() implies line[k] == seen[k] by {
                        assert(line.subrange(0, next.len() as int)[k] == next[k]);
                    }
                }
            },
        }
    }
}

/// What a chain is: no set occurs twice in it; where the target is a set,
/// the chain ends in the target; and every set of the chain is the parent of
/// the set after it.
pub proof fn lemma_chain_is_linked(sets: Seq<SetManifestView>, target: Seq<char>)
    ensures
        ({
            let chain = chain_of(sets, target);
            &&& chain.no_duplicates()
            &&& forall|k: int| 0 <= k < chain.len() ==> is_set_id(sets, #[trigger] chain[k])
            &&& sets.len() > 0 && is_set_id(sets, target) ==> chain.len() > 0 && chain.last() == target
            &&& forall|k: int|
                0 < k < chain.len() ==> (#[trigger] find_set(sets, chain[k]))->0.parent_id == Some(
                    chain[k - 1],
                )
        }),
{
    let line = lineage_up(sets, target, Seq::empty(), sets.len());
    let chain = line.reverse();
    lemma_lineage_is_linked(sets, target, Seq::empty(), sets.len());
    assert(chain.no_duplicates()) by {
        assert forall|a: int, b: int| 0 <= a < chain.len() && 0 <= b < chain.len() && a
            != b implies chain[a] != chain[b] by {
            assert(line[line.len() - 1 - a] != line[line.len() - 1 - b]);
        }
    }
    assert forall|k: int| 0 <= k < chain.len() implies is_set_id(sets, #[trigger] chain[k]) by {
        assert(chain[k] == line[line.len() - 1 - k]);
    }
    assert forall|k: int| 0 < k < chain.len() implies (#[trigger] find_set(sets, chain[k]))->0.parent_id
        == Some(chain[k - 1]) by {
        let j = line.len() - 1 - k;
        assert(chain[k] == line[j] && chain[k - 1] == line[j + 1]);
        assert(find_set(sets, line[j])->0.parent_id == Some(line[j + 1]));
    }
    if sets.len() > 0 && is_set_id(sets, target) {
        let w = choose|i: int| 0 <= i < sets.len() && (#[trigger] sets[i]).id == target;
        lemma_has_first(sets, target, w);
        let m = find_set(sets, target)->0;
        match m.parent_id {
            None => {
                assert(line == Seq::<Seq<char>>::empty().push(target));
            },
            Some(parent) => {
                let next = Seq::<Seq<char>>::empty().push(target);
                assert(line == lineage_up(sets, parent, next, (sets.len() - 1) as nat));
                assert(next.no_duplicates());
                assert forall|k: int| 0 <= k < next.len() implies is_set_id(
                    sets,
                    #[trigger] next[k],
                ) by {}
                lemma_lineage_is_linked(sets, parent, next, (sets.len() - 1) as nat);
                assert(line.subrange(0, 1)[0] == next[0]);
            },
        }
        assert(line[0] == target);
        assert(chain[chain.len() - 1] == line[0]);
    }
}

/// Where some index holds an identifier, a first index holds it.
pub proof fn lemma_has_first(sets: Seq<SetManifestView>, id: Seq<char>, j: int)
    requires
        0 <= j < sets.len(),
        sets[j].id == id,
    ensures
        find_set(sets, id) is Some,
        find_set(sets, id)->0.id == id,
        exists|i: int| is_first_with_id(sets, id, i),
    decreases j,
{
    if forall|t: int| 0 <= t < j ==> (#[trigger] sets[t]).id != id {
        assert(is_first_with_id(sets, id, j));
    } else {
        let t = choose|t: int| 0 <= t < j && (#[trigger] sets[t]).id == id;
        lemma_has_first(sets, id, t);
    }
    let i = choose|i: int| is_first_with_id(sets, id, i);
    lemma_find_set(sets, id, i);
}

/// The sets that go when `target_id` is deleted: the target and, level by
/// level, all its descendants. Each identifier occurs once, the target first
/// and every other one after its parent.
pub fn engine_delete_cascade(target_id: &str, all_manifests: &Vec<SetManifest>) -> (doomed: Vec<
    String,
>)
    ensures
        doomed@.len() > 0,
        doomed@[0]@ == target_id@,
        texts(doomed@).no_duplicates(),
        forall|id: Seq<char>|
            texts(doomed@).contains(id) <==> descends_from(views(all_manifests@), target_id@, id),
        forall|k: int|
            1 <= k < doomed@.len() ==> #[trigger] follows_parent(
                views(all_manifests@),
                texts(doomed@),
                k,
            ),
{
    let ghost sets = views(all_manifests@);
    let mut queue: Vec<String> = Vec::new();
    queue.push(String::from_str(target_id));
    assert(descends_in(sets, target_id@, target_id@, 0));
    assert(texts(queue@)[0] == target_id@);
    let mut idx: usize = 0;
    while idx < queue.len()
        invariant
            sets == views(all_manifests@),
            idx <= queue@.len(),
            queue@.len() > 0,
            queue@[0]@ == target_id@,
            texts(queue@).no_duplicates(),
            forall|k: int|
                0 <= k < queue@.len() ==> descends_from(sets, target_id@, #[trigger] texts(queue@)[k]),
            forall|k: int| 1 <= k < queue@.len() ==> #[trigger] follows_parent(sets, texts(queue@), k),
            children_listed(sets, texts(queue@), idx as int),
        decreases all_manifests@.len() + 1 - idx,
    {
        proof {
            assert forall|k: int| 1 <= k < queue@.len() implies is_set_id(
                sets,
                #[trigger] texts(queue@)[k],
            ) by {
                assert(follows_parent(sets, texts(queue@), k));
                let j = choose|j: int|
                    0 <= j < k && is_child(sets, #[trigger] texts(queue@)[j], texts(queue@)[k]);
                let i = choose|i: int|
                    #[trigger] is_child_at(sets, texts(queue@)[j], i) && sets[i].id == texts(
                        queue@,
                    )[k];
                assert(sets[i].id == texts(queue@)[k]);
            }
            lemma_queue_bound(sets, texts(queue@));
        }
        let current = queue[idx].clone();
        let mut m: usize = 0;
        while m < all_manifests.len()
            invariant
                sets == views(all_manifests@),
                m <= all_manifests@.len(),
                idx < queue@.len(),
                current@ == texts(queue@)[idx as int],
                queue@.len() > 0,
                queue@[0]@ == target_id@,
                texts(queue@).no_duplicates(),
                forall|k: int|
                    0 <= k < queue@.len() ==> descends_from(
                        sets,
                        target_id@,
                        #[trigger] texts(queue@)[k],
                    ),
                forall|k: int|
                    1 <= k < queue@.len() ==> #[trigger] follows_parent(sets, texts(queue@), k),
                children_listed(sets, texts(queue@), idx as int),
                forall|i: int|
                    0 <= i < m && (#[trigger] sets[i]).parent_id == Some(current@) ==> texts(
                        queue@,
                    ).contains(sets[i].id),
            decreases all_manifests@.len() - m,
        {
            let man = &all_manifests[m];
            if has_parent(man, &current) && !seen_before(&queue, &man.id) {
                let ghost before = texts(queue@);
                let ghost child = man.id@;
                proof {
                    let n = choose|n: nat| descends_in(sets, target_id@, current@, n);
                    assert(sets[m as int].id == child && sets[m as int].parent_id is Some);
                    assert(descends_in(sets, target_id@, child, n + 1));
                }
                queue.push(man.id.clone());
                proof {
                    assert(texts(queue@) =~= before.push(child));
                    assert forall|k: int| 0 <= k < queue@.len() implies descends_from(
                        sets,
                        target_id@,
                        #[trigger] texts(queue@)[k],
                    ) by {
                        if k < before.len() {
                            assert(texts(queue@)[k] == before[k]);
                        }
                    }
                    assert forall|k: int| 1 <= k < queue@.len() implies #[trigger] follows_parent(
                        sets,
                        texts(queue@),
                        k,
                    ) by {
                        if k < before.len() {
                            assert(follows_parent(sets, before, k));
                            let j = choose|j: int|
                                0 <= j < k && is_child(sets, #[trigger] before[j], before[k]);
                            assert(texts(queue@)[j] == before[j]);
                            assert(texts(queue@)[k] == before[k]);
                        } else {
                            assert(is_child_at(sets, texts(queue@)[idx as int], m as int));
                            assert(is_child(sets, texts(queue@)[idx as int], texts(queue@)[k]));
                        }
                    }
                    assert forall|k: int, i: int|
                        0 <= k < idx && 0 <= i < sets.len() && (#[trigger] sets[i]).parent_id
                            == Some(#[trigger] texts(queue@)[k]) implies texts(queue@).contains(
                        sets[i].id,
                    ) by {
                        assert(before[k] == texts(queue@)[k]);
                        assert(before.contains(sets[i].id));
                        let w = before.index_of(sets[i].id);
                        assert(texts(queue@)[w] == sets[i].id);
                    }
                    assert forall|i: int|
                        0 <= i < m + 1 && (#[trigger] sets[i]).parent_id == Some(
                            current@,
                        ) implies texts(queue@).contains(sets[i].id) by {
                        if i < m {
                            assert(before.contains(sets[i].id));
                            let w = before.index_of(sets[i].id);
                            assert(texts(queue@)[w] == sets[i].id);
                        } else {
                            assert(texts(queue@)[before.len() as int] == child);
                        }
                    }
                }
            }
            m += 1;
        }
        idx += 1;
    }
    proof {
        assert forall|id: Seq<char>| descends_from(sets, target_id@, id) implies texts(
            queue@,
        ).contains(id) by {
            let n = choose|n: nat| descends_in(sets, target_id@, id, n);
            assert(texts(queue@)[0] == target_id@);
            lemma_closed_list_holds_descendants(sets, texts(queue@), target_id@, id, n);
        }
        assert forall|id: Seq<char>| texts(queue@).contains(id) implies descends_from(
            sets,
            target_id@,
            id,
        ) by {
            let k = texts(queue@).index_of(id);
            assert(texts(queue@)[k] == id);
        }
    }
    queue
}

} // verus!
