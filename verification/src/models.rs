//! The records the engine keeps: file entries, the baseline, set manifests,
//! the scope configuration and the summary of a comparison.

use vstd::prelude::*;
use vstd::string::*;

verus! {

/// The views of a sequence of strings, in order.
pub open spec fn texts(v: Seq<String>) -> Seq<Seq<char>> {
    Seq::new(v.len(), |i: int| v[i]@)
}

/// A copy of a list of strings.
pub fn clone_strings(v: &Vec<String>) -> (r: Vec<String>)
    ensures
        r@ == v@,
{
    let mut r: Vec<String> = Vec::new();
    let mut i: usize = 0;
    while i < v.len()
        invariant
            i <= v.len(),
            r@ == v@.subrange(0, i as int),
        decreases v.len() - i,
    {
        r.push(v[i].clone());
        i += 1;
    }
    assert(v@.subrange(0, v.len() as int) =~= v@);
    r
}

/// Whether `name` is one of `list`.
pub fn list_has(list: &Vec<String>, name: &String) -> (r: bool)
    ensures
        r == texts(list@).contains(name@),
{
    let mut i: usize = 0;
    while i < list.len()
        invariant
            i <= list.len(),
            forall|k: int| 0 <= k < i ==> texts(list@)[k] != name@,
        decreases list.len() - i,
    {
        if list[i] == *name {
            assert(texts(list@)[i as int] == name@);
            return true;
        }
        i += 1;
    }
    false
}

/// What is recorded of one tracked file.
#[derive(Debug, Clone, PartialEq, Eq)]
pub struct FileEntry {
    /// SHA-256 of the content, 64 lowercase hex digits; empty when the file
    /// could not be read.
    pub hash: String,
    /// Length in bytes.
    pub size: u64,
    /// Last modification, in seconds since the epoch.
    pub modified: u64,
}

/// A file entry as a mathematical value.
pub struct FileEntryView {
    pub hash: Seq<char>,
    pub size: u64,
    pub modified: u64,
}

impl View for FileEntry {
    type V = FileEntryView;

    open spec fn view(&self) -> FileEntryView {
        FileEntryView { hash: self.hash@, size: self.size, modified: self.modified }
    }
}

impl FileEntry {
    /// A copy of this entry.
    pub fn duplicate(&self) -> (r: FileEntry)
        ensures
            r == *self,
    {
        FileEntry { hash: self.hash.clone(), size: self.size, modified: self.modified }
    }
}

/// The last observed state of the tracked files: one entry per path key.
///
/// The keys are kept in the order in which they were first inserted; no key
/// occurs twice.
#[derive(Debug, Clone)]
pub struct Baseline {
    pub items: Vec<(String, FileEntry)>,
}

impl View for Baseline {
    type V = Map<Seq<char>, FileEntryView>;

    open spec fn view(&self) -> Map<Seq<char>, FileEntryView> {
        Map::new(
            |k: Seq<char>| self.keys().contains(k),
            |k: Seq<char>| self.items@[self.keys().index_of(k)].1@,
        )
    }
}

impl Default for Baseline {
    fn default() -> (b: Baseline)
        ensures
            b.wf(),
            b@ == Map::<Seq<char>, FileEntryView>::empty(),
    {
        Baseline::new()
    }
}

impl Baseline {
    /// The keys, in stored order.
    pub open spec fn keys(&self) -> Seq<Seq<char>> {
        Seq::new(self.items@.len(), |i: int| self.items@[i].0@)
    }

    /// No key is stored twice.
    pub open spec fn wf(&self) -> bool {
        self.keys().no_duplicates()
    }

    /// The entry stored at an index is the one the view gives for its key.
    pub proof fn lemma_at(&self, i: int)
        requires
            self.wf(),
            0 <= i < self.items@.len(),
        ensures
            self@.contains_key(self.keys()[i]),
            self@[self.keys()[i]] == self.items@[i].1@,
    {
        let k = self.keys()[i];
        assert(self.keys().contains(k));
        let j = self.keys().index_of(k);
        assert(0 <= j < self.keys().len() && self.keys()[j] == k);
    }

    /// The keys of the view are the stored keys, and there are as many.
    pub proof fn lemma_domain(&self)
        requires
            self.wf(),
        ensures
            self@.dom() == self.keys().to_set(),
            self@.dom().finite(),
            self@.dom().len() == self.items@.len(),
    {
        assert(self@.dom() =~= self.keys().to_set());
        self.keys().unique_seq_to_set();
    }

    /// The empty baseline.
    pub fn new() -> (b: Baseline)
        ensures
            b.wf(),
            b@ == Map::<Seq<char>, FileEntryView>::empty(),
    {
        let b = Baseline { items: Vec::new() };
        assert(b@ =~= Map::<Seq<char>, FileEntryView>::empty());
        b
    }

    /// The number of entries.
    pub fn len(&self) -> (n: usize)
        ensures
            n == self.items@.len(),
    {
        self.items.len()
    }

    /// The first index at which `key` is stored, if it is stored.
    pub fn find(&self, key: &str) -> (r: Option<usize>)
        ensures
            match r {
                Some(i) => i < self.items@.len() && self.keys()[i as int] == key@ && forall|j: int|
                    0 <= j < i ==> self.keys()[j] != key@,
                None => !self.keys().contains(key@),
            },
    {
        let wanted = String::from_str(key);
        let mut i: usize = 0;
        while i < self.items.len()
            invariant
                i <= self.items@.len(),
                wanted@ == key@,
                forall|k: int| 0 <= k < i ==> self.keys()[k] != key@,
            decreases self.items@.len() - i,
        {
            if self.items[i].0 == wanted {
                return Some(i);
            }
            i += 1;
        }
        None
    }

    /// Whether an entry is stored under `key`.
    pub fn contains_key(&self, key: &str) -> (r: bool)
        ensures
            r == self@.contains_key(key@),
    {
        self.find(key).is_some()
    }

    /// The entry stored under `key`, if there is one.
    pub fn get(&self, key: &str) -> (r: Option<&FileEntry>)
        requires
            self.wf(),
        ensures
            match r {
                Some(e) => self@.contains_key(key@) && e@ == self@[key@],
                None => !self@.contains_key(key@),
            },
    {
        match self.find(key) {
            Some(i) => {
                proof {
                    self.lemma_at(i as int);
                }
                Some(&self.items[i].1)
            },
            None => None,
        }
    }

    /// Stores `entry` under `key`, in place of what was stored there.
    pub fn insert(&mut self, key: String, entry: FileEntry)
        requires
            old(self).wf(),
        ensures
            final(self).wf(),
            final(self)@ == old(self)@.insert(key@, entry@),
    {
        let ghost before = *self;
        let ghost k = key@;
        let ghost e = entry@;
        match self.find(key.as_str()) {
            Some(i) => {
                self.items.set(i, (key, entry));
                proof {
                    assert(self.keys() =~= before.keys());
                    assert forall|q: Seq<char>| self@.contains_key(q) implies #[trigger] self@[q]
                        == before@.insert(k, e)[q] by {
                        let j = self.keys().index_of(q);
                        if q != k {
                            assert(j != i);
                        } else {
                            assert(self.keys()[i as int] == k);
                        }
                    }
                    assert(self@ =~= before@.insert(k, e));
                }
            },
            None => {
                self.items.push((key, entry));
                proof {
                    let n = before.items@.len() as int;
                    assert(self.keys() =~= before.keys().push(k));
                    assert forall|a: int, b: int|
                        0 <= a < self.keys().len() && 0 <= b < self.keys().len() && a != b
                        implies self.keys()[a] != self.keys()[b] by {
                        if a < n && b < n {
                            assert(before.keys()[a] != before.keys()[b]);
                        } else if a == n {
                            if before.keys()[b] == k {
                                assert(before.keys().contains(k));
                            }
                        } else {
                            if before.keys()[a] == k {
                                assert(before.keys().contains(k));
                            }
                        }
                    }
                    assert forall|q: Seq<char>| self@.contains_key(q) implies #[trigger] self@[q]
                        == before@.insert(k, e)[q] by {
                        let j = self.keys().index_of(q);
                        if q != k {
                            assert(j != n);
                            assert(before.keys()[j] == q);
                            let j0 = before.keys().index_of(q);
                            assert(before.keys()[j0] == q);
                            assert(self.keys()[j0] == q);
                        } else {
                            assert(self.keys()[n] == k);
                        }
                    }
                    assert forall|q: Seq<char>| self@.contains_key(q) <==> before@.insert(
                        k,
                        e,
                    ).contains_key(q) by {
                        if before.keys().contains(q) {
                            let j0 = before.keys().index_of(q);
                            assert(self.keys()[j0] == q);
                        }
                        if q == k {
                            assert(self.keys()[n] == k);
                        }
                        if self.keys().contains(q) && q != k {
                            let j = self.keys().index_of(q);
                            assert(before.keys()[j] == q);
                        }
                    }
                    assert(self@ =~= before@.insert(k, e));
                }
            },
        }
    }

    /// Whether no key is stored twice: whether the baseline is well formed.
    pub fn has_distinct_keys(&self) -> (r: bool)
        ensures
            r == self.wf(),
    {
        let mut i: usize = 0;
        while i < self.items.len()
            invariant
                i <= self.items@.len(),
                forall|a: int, b: int| 0 <= a < b < i ==> self.keys()[a] != self.keys()[b],
            decreases self.items@.len() - i,
        {
            let mut j: usize = 0;
            while j < i
                invariant
                    j <= i,
                    i < self.items@.len(),
                    forall|a: int| 0 <= a < j ==> self.keys()[a] != self.keys()[i as int],
                decreases i - j,
            {
                if self.items[j].0 == self.items[i].0 {
                    assert(self.keys()[j as int] == self.keys()[i as int]);
                    return false;
                }
                j += 1;
            }
            i += 1;
        }
        true
    }

    /// Whether two baselines hold the same entries under the same keys.
    pub fn same_as(&self, other: &Baseline) -> (r: bool)
        requires
            self.wf(),
            other.wf(),
        ensures
            r == (self@ == other@),
    {
        if self.items.len() != other.items.len() {
            proof {
                self.lemma_domain();
                other.lemma_domain();
            }
            return false;
        }
        let mut i: usize = 0;
        while i < self.items.len()
            invariant
                i <= self.items@.len(),
                self.wf(),
                other.wf(),
                self.items@.len() == other.items@.len(),
                forall|k: int|
                    0 <= k < i ==> other@.contains_key(#[trigger] self.keys()[k]) && other@[self.keys()[k]]
                        == self.items@[k].1@,
            decreases self.items@.len() - i,
        {
            proof {
                self.lemma_at(i as int);
            }
            match other.get(self.items[i].0.as_str()) {
                Some(e) => {
                    let mine = &self.items[i].1;
                    if !(e.hash == mine.hash && e.size == mine.size && e.modified == mine.modified) {
                        return false;
                    }
                },
                None => {
                    return false;
                },
            }
            i += 1;
        }
        proof {
            self.lemma_domain();
            other.lemma_domain();
            assert forall|q: Seq<char>| self@.contains_key(q) implies other@.contains_key(q)
                && other@[q] == self@[q] by {
                let j = self.keys().index_of(q);
                assert(self.keys()[j] == q);
                self.lemma_at(j);
            }
            assert(self@.dom().subset_of(other@.dom()));
            vstd::set_lib::lemma_subset_equality(self@.dom(), other@.dom());
            assert(self@ =~= other@);
        }
        true
    }
}

/// The counts that a comparison of the current state with the baseline yields.
#[derive(Debug, Clone, Copy, PartialEq, Eq)]
pub struct DiffSummary {
    pub new_files: usize,
    pub modified_files: usize,
    pub deleted_files: usize,
    pub is_dirty: bool,
}

impl Default for DiffSummary {
    fn default() -> (d: DiffSummary)
        ensures
            d.new_files == 0,
            d.modified_files == 0,
            d.deleted_files == 0,
            !d.is_dirty,
    {
        DiffSummary { new_files: 0, modified_files: 0, deleted_files: 0, is_dirty: false }
    }
}

/// The record of one set: its identity, its parent, what it covers and what
/// it deletes.
#[derive(Debug, Clone, PartialEq, Eq)]
pub struct SetManifest {
    pub id: String,
    pub name: String,
    pub parent_id: Option<String>,
    pub created_at: u64,
    pub scopes: Vec<String>,
    pub exclusions: Vec<String>,
    /// Path keys that this set removes from what its ancestors hold.
    pub deleted_paths: Vec<String>,
}

/// A set manifest as a mathematical value.
pub struct SetManifestView {
    pub id: Seq<char>,
    pub name: Seq<char>,
    pub parent_id: Option<Seq<char>>,
    pub created_at: u64,
    pub scopes: Seq<Seq<char>>,
    pub exclusions: Seq<Seq<char>>,
    pub deleted_paths: Seq<Seq<char>>,
}

/// The view of an optional string.
pub open spec fn opt_text(s: Option<String>) -> Option<Seq<char>> {
    match s {
        Some(t) => Some(t@),
        None => None,
    }
}

impl View for SetManifest {
    type V = SetManifestView;

    open spec fn view(&self) -> SetManifestView {
        SetManifestView {
            id: self.id@,
            name: self.name@,
            parent_id: opt_text(self.parent_id),
            created_at: self.created_at,
            scopes: texts(self.scopes@),
            exclusions: texts(self.exclusions@),
            deleted_paths: texts(self.deleted_paths@),
        }
    }
}

impl SetManifest {
    /// A copy of this manifest.
    pub fn duplicate(&self) -> (r: SetManifest)
        ensures
            r@ == self@,
    {
        let parent = match &self.parent_id {
            Some(p) => Some(p.clone()),
            None => None,
        };
        let r = SetManifest {
            id: self.id.clone(),
            name: self.name.clone(),
            parent_id: parent,
            created_at: self.created_at,
            scopes: clone_strings(&self.scopes),
            exclusions: clone_strings(&self.exclusions),
            deleted_paths: clone_strings(&self.deleted_paths),
        };
        r
    }
}

/// The scope configuration: scope names with the directories they stand for.
///
/// A name is looked up from the front: the first pair with that name counts.
#[derive(Debug, Clone, PartialEq, Eq)]
pub struct BlkConfig {
    pub path_map: Vec<(String, String)>,
}

impl View for BlkConfig {
    type V = Map<Seq<char>, Seq<char>>;

    open spec fn view(&self) -> Map<Seq<char>, Seq<char>> {
        Map::new(
            |n: Seq<char>| self.names().contains(n),
            |n: Seq<char>| self.path_map@[self.first_named(n)].1@,
        )
    }
}

impl Default for BlkConfig {
    fn default() -> (c: BlkConfig)
        ensures
            c@ == Map::<Seq<char>, Seq<char>>::empty(),
            c.path_map@.len() == 0,
    {
        BlkConfig::new()
    }
}

impl BlkConfig {
    /// The scope names, in stored order.
    pub open spec fn names(&self) -> Seq<Seq<char>> {
        Seq::new(self.path_map@.len(), |i: int| self.path_map@[i].0@)
    }

    /// `i` is the first index that holds `name`.
    pub open spec fn is_first_named(&self, name: Seq<char>, i: int) -> bool {
        &&& 0 <= i < self.path_map@.len()
        &&& self.path_map@[i].0@ == name
        &&& forall|j: int| 0 <= j < i ==> self.path_map@[j].0@ != name
    }

    /// The first index that holds `name`, where there is one.
    pub open spec fn first_named(&self, name: Seq<char>) -> int {
        choose|i: int| self.is_first_named(name, i)
    }

    /// The directory that `name` stands for, if the name is configured.
    pub open spec fn root_of(&self, name: Seq<char>) -> Option<Seq<char>> {
        if self@.contains_key(name) {
            Some(self@[name])
        } else {
            None
        }
    }

    /// An index that is the first for its name is the one `first_named` gives.
    pub proof fn lemma_first_named(&self, name: Seq<char>, i: int)
        requires
            self.is_first_named(name, i),
        ensures
            self.first_named(name) == i,
            self@.contains_key(name),
            self@[name] == self.path_map@[i].1@,
    {
        let k = self.first_named(name);
        assert(self.is_first_named(name, k));
        if k < i {
            assert(self.path_map@[k].0@ != name);
        } else if i < k {
            assert(self.path_map@[i].0@ != name);
        }
        assert(self.names()[i] == name);
    }

    /// The empty configuration.
    pub fn new() -> (c: BlkConfig)
        ensures
            c@ == Map::<Seq<char>, Seq<char>>::empty(),
            c.path_map@.len() == 0,
    {
        let c = BlkConfig { path_map: Vec::new() };
        assert(c@ =~= Map::<Seq<char>, Seq<char>>::empty());
        c
    }

    /// The first index that holds `name`, if any does.
    pub fn position(&self, name: &str) -> (r: Option<usize>)
        ensures
            match r {
                Some(i) => self.is_first_named(name@, i as int),
                None => !self@.contains_key(name@),
            },
    {
        let wanted = String::from_str(name);
        let mut i: usize = 0;
        while i < self.path_map.len()
            invariant
                i <= self.path_map@.len(),
                wanted@ == name@,
                forall|j: int| 0 <= j < i ==> self.path_map@[j].0@ != name@,
            decreases self.path_map@.len() - i,
        {
            if self.path_map[i].0 == wanted {
                return Some(i);
            }
            i += 1;
        }
        assert(!self.names().contains(name@)) by {
            if self.names().contains(name@) {
                let j = self.names().index_of(name@);
                assert(self.path_map@[j].0@ == name@);
            }
        }
        None
    }

    /// The directory that `name` stands for, if the name is configured.
    pub fn get(&self, name: &str) -> (r: Option<&String>)
        ensures
            opt_text_ref(r) == self.root_of(name@),
    {
        match self.position(name) {
            Some(i) => {
                proof {
                    self.lemma_first_named(name@, i as int);
                }
                Some(&self.path_map[i].1)
            },
            None => None,
        }
    }

    /// Makes `name` stand for `root`, in place of what it stood for.
    pub fn insert(&mut self, name: String, root: String)
        ensures
            final(self)@ == old(self)@.insert(name@, root@),
    {
        let ghost before = *self;
        let ghost n = name@;
        let ghost r = root@;
        match self.position(name.as_str()) {
            Some(i) => {
                proof {
                    before.lemma_first_named(n, i as int);
                }
                self.path_map.set(i, (name, root));
                proof {
                    assert(self.names() =~= before.names());
                    assert forall|q: Seq<char>| self@.contains_key(q) implies #[trigger] self@[q]
                        == before@.insert(n, r)[q] by {
                        let j = self.first_named(q);
                        assert(self.names()[self.names().index_of(q)] == q);
                        self.lemma_has_first(q);
                        assert(self.is_first_named(q, j));
                        if q == n {
                            self.lemma_first_named(q, i as int);
                        } else {
                            assert forall|t: int| 0 <= t < j implies before.path_map@[t].0@
                                != q by {
                                assert(self.path_map@[t].0@ != q);
                            }
                            assert(before.is_first_named(q, j));
                            before.lemma_first_named(q, j);
                        }
                    }
                    assert(self@ =~= before@.insert(n, r));
                }
            },
            None => {
                self.path_map.push((name, root));
                proof {
                    let len = before.path_map@.len() as int;
                    assert(self.names() =~= before.names().push(n));
                    assert forall|q: Seq<char>| self@.contains_key(q) <==> before@.insert(
                        n,
                        r,
                    ).contains_key(q) by {
                        if before.names().contains(q) {
                            let j0 = before.names().index_of(q);
                            assert(self.names()[j0] == q);
                        }
                        if q == n {
                            assert(self.names()[len] == n);
                        }
                        if self.names().contains(q) && q != n {
                            let j = self.names().index_of(q);
                            assert(before.names()[j] == q);
                        }
                    }
                    assert forall|q: Seq<char>| self@.contains_key(q) implies #[trigger] self@[q]
                        == before@.insert(n, r)[q] by {
                        self.lemma_has_first(q);
                        let j = self.first_named(q);
                        if q == n {
                            assert(self.is_first_named(n, len)) by {
                                assert forall|t: int| 0 <= t < len implies self.path_map@[t].0@
                                    != n by {
                                    if before.path_map@[t].0@ == n {
                                        assert(before.names()[t] == n);
                                    }
                                }
                            }
                            self.lemma_first_named(n, len);
                        } else {
                            assert(j != len);
                            assert forall|t: int| 0 <= t < j implies before.path_map@[t].0@
                                != q by {
                                assert(self.path_map@[t].0@ != q);
                            }
                            assert(before.is_first_named(q, j));
                            before.lemma_first_named(q, j);
                        }
                    }
                    assert(self@ =~= before@.insert(n, r));
                }
            },
        }
    }

    /// A configured name has a first index.
    pub proof fn lemma_has_first(&self, name: Seq<char>)
        requires
            self@.contains_key(name),
        ensures
            self.is_first_named(name, self.first_named(name)),
    {
        let j = self.names().index_of(name);
        assert(self.names()[j] == name);
        self.lemma_first_below(name, j);
    }

    /// Under an index that holds `name` lies the first index that holds it.
    proof fn lemma_first_below(&self, name: Seq<char>, j: int)
        requires
            0 <= j < self.path_map@.len(),
            self.path_map@[j].0@ == name,
        ensures
            exists|i: int| self.is_first_named(name, i),
        decreases j,
    {
        if forall|t: int| 0 <= t < j ==> self.path_map@[t].0@ != name {
            assert(self.is_first_named(name, j));
        } else {
            let t = choose|t: int| 0 <= t < j && self.path_map@[t].0@ == name;
            self.lemma_first_below(name, t);
        }
    }
}

/// The view of an optional borrowed string.
pub open spec fn opt_text_ref(s: Option<&String>) -> Option<Seq<char>> {
    match s {
        Some(t) => Some(t@),
        None => None,
    }
}

} // verus!
