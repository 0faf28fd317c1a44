//! The archive codec's rules: which entries an archive gets and under which
//! names, and where the entries of an archive are unpacked.

use vstd::prelude::*;
use crate::delta::{join_path, joined};
use crate::exclusion::normalized;
use crate::models::opt_text;
use crate::scan::{views, WalkedEntry, WalkedEntryView};
use crate::text::{from_chars, replaced, to_chars};

verus! {

/// The permissions that every stored entry gets.
pub const ENTRY_PERMISSIONS: u32 = 0o755;

/// The largest length that an entry can have without the large-file flag.
pub const PLAIN_LENGTH_LIMIT: u64 = 0xffff_ffff;

/// How the content of an entry is stored.
#[derive(Debug, Clone, Copy, PartialEq, Eq)]
pub enum Compression {
    /// As it is: directories.
    Stored,
    /// Compressed with Zstandard: files.
    Zstd,
}

/// One entry to write into an archive.
#[derive(Debug, Clone, PartialEq, Eq)]
pub struct ArchiveEntry {
    /// The path to read from.
    pub source: String,
    /// The name inside the archive, `/` between segments.
    pub name: String,
    pub is_dir: bool,
    pub compression: Compression,
    pub permissions: u32,
    /// The entry is longer than 2^32 - 1 bytes.
    pub large_file: bool,
}

/// An archive entry as a mathematical value.
pub struct ArchiveEntryView {
    pub source: Seq<char>,
    pub name: Seq<char>,
    pub is_dir: bool,
    pub compression: Compression,
    pub permissions: u32,
    pub large_file: bool,
}

impl View for ArchiveEntry {
    type V = ArchiveEntryView;

    open spec fn view(&self) -> ArchiveEntryView {
        ArchiveEntryView {
            source: self.source@,
            name: self.name@,
            is_dir: self.is_dir,
            compression: self.compression,
            permissions: self.permissions,
            large_file: self.large_file,
        }
    }
}

/// Why an archive cannot be planned.
#[derive(Debug, Clone, PartialEq, Eq)]
pub enum ArchiveError {
    /// The entry at this path does not lie under the directory to archive.
    OutsideSource(String),
}

/// The archive entry for a walked entry that lies under the source
/// directory: none for the directory itself, a stored entry for a
/// directory, a compressed one for anything else. Other characters than the
/// backslash stay in the name as they are.
pub open spec fn archive_entry_of(e: WalkedEntryView) -> Option<ArchiveEntryView> {
    let name = normalized(e.rel->0);
    if e.is_dir {
        if name.len() == 0 {
            None
        } else {
            Some(
                ArchiveEntryView {
                    source: e.path,
                    name: name,
                    is_dir: true,
                    compression: Compression::Stored,
                    permissions: ENTRY_PERMISSIONS,
                    large_file: false,
                },
            )
        }
    } else {
        Some(
            ArchiveEntryView {
                source: e.path,
                name: name,
                is_dir: false,
                compression: Compression::Zstd,
                permissions: ENTRY_PERMISSIONS,
                large_file: e.size > PLAIN_LENGTH_LIMIT,
            },
        )
    }
}

/// The entries of the archive of a walked tree, in walk order.
pub open spec fn archive_entries_of(walked: Seq<WalkedEntryView>) -> Seq<ArchiveEntryView>
    decreases walked.len(),
{
    if walked.len() == 0 {
        Seq::empty()
    } else {
        let before = archive_entries_of(walked.drop_last());
        match archive_entry_of(walked.last()) {
            Some(entry) => before.push(entry),
            None => before,
        }
    }
}

/// `i` is the first walked entry that does not lie under the source
/// directory.
pub open spec fn is_first_outside(walked: Seq<WalkedEntryView>, i: int) -> bool {
    &&& 0 <= i < walked.len()
    &&& walked[i].rel is None
    &&& forall|j: int| 0 <= j < i ==> (#[trigger] walked[j]).rel is Some
}

/// Every walked entry lies under the source directory.
pub open spec fn all_inside(walked: Seq<WalkedEntryView>) -> bool {
    forall|i: int| 0 <= i < walked.len() ==> (#[trigger] walked[i]).rel is Some
}

/// Plans the archive of a directory from a walk of it. Each entry's `rel`
/// is its path relative to the directory, its `size` its length.
///
/// The plan fails on the first entry that does not lie under the directory.
/// Otherwise every entry but the directory itself gets stored, a file with
/// the large-file flag exactly when it is longer than 2^32 - 1 bytes.
pub fn create_zip_archive(walked: &Vec<WalkedEntry>) -> (r: Result<Vec<ArchiveEntry>, ArchiveError>)
    ensures
        match r {
            Ok(entries) => all_inside(views(walked@)) && views(entries@) == archive_entries_of(
                views(walked@),
            ),
            Err(ArchiveError::OutsideSource(path)) => exists|i: int|
                is_first_outside(views(walked@), i) && path@ == views(walked@)[i].path,
        },
{
    let mut entries: Vec<ArchiveEntry> = Vec::new();
    let mut i: usize = 0;
    while i < walked.len()
        invariant
            i <= walked@.len(),
            all_inside(views(walked@).take(i as int)),
            views(entries@) == archive_entries_of(views(walked@).take(i as int)),
        decreases walked@.len() - i,
    {
        let e = &walked[i];
        proof {
            let t = views(walked@).take(i + 1);
            assert(t.drop_last() =~= views(walked@).take(i as int));
            assert(t.last() == e@);
        }
        match &e.rel {
            None => {
                proof {
                    assert forall|j: int| 0 <= j < i implies (#[trigger] views(walked@)[j]).rel is Some by {
                        assert(views(walked@).take(i as int)[j] == views(walked@)[j]);
                    }
                    assert(is_first_outside(views(walked@), i as int));
                }
                return Err(ArchiveError::OutsideSource(e.path.clone()));
            },
            Some(rel) => {
                let name = from_chars(&replaced(&to_chars(rel.as_str()), '\\', '/'));
                let ghost before = entries@;
                if e.is_dir {
                    if name.as_str().unicode_len() > 0 {
                        let entry = ArchiveEntry {
                            source: e.path.clone(),
                            name: name,
                            is_dir: true,
                            compression: Compression::Stored,
                            permissions: ENTRY_PERMISSIONS,
                            large_file: false,
                        };
                        entries.push(entry);
                        assert(views(entries@) =~= views(before).push(entry@));
                    }
                } else {
                    let entry = ArchiveEntry {
                        source: e.path.clone(),
                        name: name,
                        is_dir: false,
                        compression: Compression::Zstd,
                        permissions: ENTRY_PERMISSIONS,
                        large_file: e.size > PLAIN_LENGTH_LIMIT,
                    };
                    entries.push(entry);
                    assert(views(entries@) =~= views(before).push(entry@));
                }
                proof {
                    let t = views(walked@).take(i + 1);
                    assert forall|j: int| 0 <= j < t.len() implies (#[trigger] t[j]).rel is Some by {
                        if j < i {
                            assert(views(walked@).take(i as int)[j] == t[j]);
                        }
                    }
                }
            },
        }
        i += 1;
    }
    assert(views(walked@).take(walked@.len() as int) =~= views(walked@));
    Ok(entries)
}

/// One entry of an archive as it is read.
#[derive(Debug, Clone, PartialEq, Eq)]
pub struct StoredName {
    /// The name as stored.
    pub name: String,
    /// The same name as a relative path that stays inside the directory it
    /// is joined to, where the name is such a path.
    pub enclosed: Option<String>,
}

/// A stored name as a mathematical value.
pub struct StoredNameView {
    pub name: Seq<char>,
    pub enclosed: Option<Seq<char>>,
}

impl View for StoredName {
    type V = StoredNameView;

    open spec fn view(&self) -> StoredNameView {
        StoredNameView { name: self.name@, enclosed: opt_text(self.enclosed) }
    }
}

/// What to unpack of one entry of an archive.
#[derive(Debug, Clone, PartialEq, Eq)]
pub struct ExtractAction {
    /// The index of the entry in the archive.
    pub index: usize,
    /// The path to create.
    pub path: String,
    /// The entry is a directory.
    pub is_dir: bool,
}

/// An extract action as a mathematical value.
pub struct ExtractActionView {
    pub index: usize,
    pub path: Seq<char>,
    pub is_dir: bool,
}

impl View for ExtractAction {
    type V = ExtractActionView;

    open spec fn view(&self) -> ExtractActionView {
        ExtractActionView { index: self.index, path: self.path@, is_dir: self.is_dir }
    }
}

/// The name ends in a slash: it is that of a directory.
pub open spec fn names_directory(name: Seq<char>) -> bool {
    name.len() > 0 && name.last() == '/'
}

/// What to unpack of the entry at `index`: nothing where its name is no
/// enclosed path, else the path under `dest` that it names.
pub open spec fn extract_action_of(dest: Seq<char>, stored: StoredNameView, index: int) -> Option<
    ExtractActionView,
> {
    match stored.enclosed {
        Some(rel) => Some(
            ExtractActionView {
                index: index as usize,
                path: join_path(dest, rel),
                is_dir: names_directory(stored.name),
            },
        ),
        None => None,
    }
}

/// What to unpack of an archive, in the order of its entries.
pub open spec fn extract_plan_of(dest: Seq<char>, stored: Seq<StoredNameView>) -> Seq<ExtractActionView>
    decreases stored.len(),
{
    if stored.len() == 0 {
        Seq::empty()
    } else {
        let before = extract_plan_of(dest, stored.drop_last());
        match extract_action_of(dest, stored.last(), stored.len() - 1) {
            Some(a) => before.push(a),
            None => before,
        }
    }
}

/// Plans the unpacking of an archive into the directory `dest`. An entry
/// whose name is no enclosed path is passed over; every other one is
/// created under `dest`, as a directory where its name ends in a slash.
pub fn extract_zip_archive(dest: &str, stored: &Vec<StoredName>) -> (plan: Vec<ExtractAction>)
    ensures
        views(plan@) == extract_plan_of(dest@, views(stored@)),
{
    let mut plan: Vec<ExtractAction> = Vec::new();
    let mut i: usize = 0;
    while i < stored.len()
        invariant
            i <= stored@.len(),
            views(plan@) == extract_plan_of(dest@, views(stored@).take(i as int)),
        decreases stored@.len() - i,
    {
        let s = &stored[i];
        proof {
            let t = views(stored@).take(i + 1);
            assert(t.drop_last() =~= views(stored@).take(i as int));
            assert(t.last() == s@);
        }
        let ghost before = plan@;
        match &s.enclosed {
            Some(rel) => {
                let name = to_chars(s.name.as_str());
                let is_dir = name.len() > 0 && name[name.len() - 1] == '/';
                let action = ExtractAction {
                    index: i,
                    path: joined(dest, rel.as_str()),
                    is_dir: is_dir,
                };
                plan.push(action);
                assert(views(plan@) =~= views(before).push(action@));
            },
            None => {},
        }
        i += 1;
    }
    assert(views(stored@).take(stored@.len() as int) =~= views(stored@));
    plan
}

} // verus!
