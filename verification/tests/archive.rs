use blk::archive::{
    create_zip_archive, extract_zip_archive, ArchiveEntry, ArchiveError, Compression,
    ExtractAction, StoredName, ENTRY_PERMISSIONS,
};
use blk::scan::WalkedEntry;

fn walked(path: &str, rel: Option<&str>, is_dir: bool, size: u64) -> WalkedEntry {
    WalkedEntry {
        scope: String::new(),
        path: path.to_string(),
        rel: rel.map(|r| r.to_string()),
        is_file: !is_dir,
        is_dir,
        size,
        modified: 0,
    }
}

fn stored(name: &str, enclosed: Option<&str>) -> StoredName {
    StoredName { name: name.to_string(), enclosed: enclosed.map(|e| e.to_string()) }
}

#[test]
fn archive_stores_directories_and_files_but_not_the_root() {
    let tree = vec![
        walked("/s", Some(""), true, 0),
        walked("/s/Root", Some("Root"), true, 0),
        walked("/s/Root/a.txt", Some("Root/a.txt"), false, 1),
        walked("/s/Root/sub", Some("Root\\sub"), true, 0),
        walked("/s/Root/sub/b.txt", Some("Root\\sub\\b.txt"), false, 2),
    ];
    let entries = create_zip_archive(&tree).unwrap();
    let seen: Vec<(&str, bool, Compression)> =
        entries.iter().map(|e| (e.name.as_str(), e.is_dir, e.compression)).collect();
    assert_eq!(
        seen,
        vec![
            ("Root", true, Compression::Stored),
            ("Root/a.txt", false, Compression::Zstd),
            ("Root/sub", true, Compression::Stored),
            ("Root/sub/b.txt", false, Compression::Zstd),
        ]
    );
    assert_eq!(entries[1].source, "/s/Root/a.txt");
    assert!(entries.iter().all(|e| e.permissions == 0o755 && e.permissions == ENTRY_PERMISSIONS));
    assert!(entries.iter().all(|e| !e.large_file));
}

#[test]
fn archive_flags_files_beyond_four_gibibytes() {
    let limit: u64 = 0xffff_ffff;
    let tree = vec![
        walked("/s/at", Some("at"), false, limit),
        walked("/s/over", Some("over"), false, limit + 1),
        walked("/s/huge", Some("huge"), false, 5 * 1024 * 1024 * 1024),
        walked("/s/dir", Some("dir"), true, limit + 1),
    ];
    let entries = create_zip_archive(&tree).unwrap();
    let flags: Vec<(&str, bool)> = entries.iter().map(|e| (e.name.as_str(), e.large_file)).collect();
    assert_eq!(flags, vec![("at", false), ("over", true), ("huge", true), ("dir", false)]);
}

#[test]
fn archive_keeps_names_outside_ascii_as_they_are() {
    let tree = vec![walked("/s/Root/日本語/ファイル ü.txt", Some("Root/日本語/ファイル ü.txt"), false, 3)];
    let entries = create_zip_archive(&tree).unwrap();
    assert_eq!(entries[0].name, "Root/日本語/ファイル ü.txt");
    assert_eq!(entries[0].name.as_bytes(), "Root/日本語/ファイル ü.txt".as_bytes());
}

#[test]
fn archive_fails_on_an_entry_outside_the_directory() {
    let tree = vec![
        walked("/s/a", Some("a"), false, 1),
        walked("/elsewhere/x", None, false, 1),
        walked("/elsewhere/y", None, false, 1),
    ];
    assert_eq!(
        create_zip_archive(&tree),
        Err(ArchiveError::OutsideSource("/elsewhere/x".to_string()))
    );
}

#[test]
fn archive_of_an_empty_directory_is_empty() {
    assert_eq!(create_zip_archive(&vec![]), Ok(vec![]));
    assert_eq!(create_zip_archive(&vec![walked("/s", Some(""), true, 0)]), Ok(vec![]));
}

#[test]
fn archive_stores_a_file_even_with_an_empty_name() {
    let entries = create_zip_archive(&vec![walked("/s", Some(""), false, 1)]).unwrap();
    assert_eq!(
        entries,
        vec![ArchiveEntry {
            source: "/s".to_string(),
            name: String::new(),
            is_dir: false,
            compression: Compression::Zstd,
            permissions: 0o755,
            large_file: false,
        }]
    );
}

#[test]
fn unpacking_joins_enclosed_names_to_the_destination() {
    let plan = extract_zip_archive(
        "/x",
        &vec![
            stored("Root/", Some("Root")),
            stored("Root/a.txt", Some("Root/a.txt")),
            stored("../escape.txt", None),
            stored("/abs.txt", None),
            stored("Root/sub/", Some("Root/sub")),
        ],
    );
    assert_eq!(
        plan,
        vec![
            ExtractAction { index: 0, path: "/x/Root".to_string(), is_dir: true },
            ExtractAction { index: 1, path: "/x/Root/a.txt".to_string(), is_dir: false },
            ExtractAction { index: 4, path: "/x/Root/sub".to_string(), is_dir: true },
        ]
    );
    assert_eq!(extract_zip_archive("/x", &vec![]), vec![]);
}
