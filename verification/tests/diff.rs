use rembackup::config::{Ignore, Match, Specifier};
use rembackup::indexchanges::IndexChange;
use rembackup::indexfile::IndexFile;
use rembackup::update_index::{
    perform_index_diff, DiffOp, IndexEntry, IndexNode, Settings, SourceEntry, SourceNode,
};

fn path(parts: &[&str]) -> Vec<Vec<u8>> {
    parts.iter().map(|p| p.as_bytes().to_vec()).collect()
}

fn rec(size: u64, last_modified: Option<u64>) -> IndexFile {
    IndexFile { size, last_modified }
}

fn src_file(name: &str, size: u64) -> SourceEntry {
    SourceEntry { name: name.as_bytes().to_vec(), node: SourceNode::File(rec(size, None)) }
}

fn src_dir(name: &str, entries: Vec<SourceEntry>) -> SourceEntry {
    SourceEntry { name: name.as_bytes().to_vec(), node: SourceNode::Dir(entries) }
}

fn idx_file_entry(name: &str, content: &[u8]) -> IndexEntry {
    IndexEntry {
        name: name.as_bytes().to_vec(),
        kind_dir: Some(false),
        node: IndexNode::File(Some(content.to_vec())),
    }
}

fn idx_dir_entry(name: &str, entries: Vec<IndexEntry>) -> IndexEntry {
    IndexEntry {
        name: name.as_bytes().to_vec(),
        kind_dir: Some(true),
        node: IndexNode::Dir(Some(entries)),
    }
}

fn empty_index() -> IndexNode {
    IndexNode::Dir(Some(Vec::new()))
}

fn no_rules() -> Ignore {
    Ignore(Vec::new())
}

fn diff(
    source: &SourceNode,
    index: &IndexNode,
    sort: Option<bool>,
) -> (u64, Vec<IndexChange>) {
    perform_index_diff(source, index, None, None, no_rules(), &Settings::default(), sort)
        .expect("the diff must succeed")
}

#[test]
fn worked_example() {
    // source: a directory `a/` with a ten-byte file `a/f.txt`; empty index
    let source = SourceNode::Dir(vec![src_dir("a", vec![src_file("f.txt", 10)])]);
    let index = empty_index();
    let (total, changes) = diff(&source, &index, None);
    assert_eq!(total, 10);
    assert_eq!(
        changes,
        vec![
            IndexChange::AddDir(path(&["a"]), true, 10),
            IndexChange::AddFile(path(&["a", "f.txt"]), rec(10, None)),
        ]
    );
}

#[test]
fn unchanged_tree_yields_no_changes() {
    // the index mirrors the source exactly: nothing to do
    let source = SourceNode::Dir(vec![src_dir("a", vec![src_file("f.txt", 10)])]);
    let index = IndexNode::Dir(Some(vec![idx_dir_entry(
        "a",
        vec![idx_file_entry("f.txt", &rec(10, None).save())],
    )]));
    let (total, changes) = diff(&source, &index, None);
    assert_eq!(total, 0);
    assert_eq!(changes, Vec::new());
}

#[test]
fn changed_size_forces_an_update() {
    let source = SourceNode::Dir(vec![src_file("f", 11)]);
    let index = IndexNode::Dir(Some(vec![idx_file_entry("f", &rec(10, None).save())]));
    let (total, changes) = diff(&source, &index, None);
    assert_eq!(total, 11);
    assert_eq!(
        changes,
        vec![IndexChange::AddFile(path(&["f"]), rec(11, None))]
    );
}

#[test]
fn malformed_record_forces_an_update() {
    let source = SourceNode::Dir(vec![src_file("f", 10)]);
    let index = IndexNode::Dir(Some(vec![idx_file_entry("f", b"Age=5\n")]));
    let (_, changes) = diff(&source, &index, None);
    assert_eq!(
        changes,
        vec![IndexChange::AddFile(path(&["f"]), rec(10, None))]
    );
}

#[test]
fn file_becomes_directory() {
    // recorded as a file, now a directory: remove the file first, then add
    // the directory and what it holds
    let source = SourceNode::Dir(vec![src_dir("p", vec![src_file("c", 4)])]);
    let index = IndexNode::Dir(Some(vec![idx_file_entry("p", &rec(1, None).save())]));
    let (total, changes) = diff(&source, &index, None);
    assert_eq!(total, 4);
    assert_eq!(
        changes,
        vec![
            IndexChange::RemoveFile(path(&["p"])),
            IndexChange::AddDir(path(&["p"]), true, 4),
            IndexChange::AddFile(path(&["p", "c"]), rec(4, None)),
        ]
    );
}

#[test]
fn directory_becomes_file() {
    let source = SourceNode::Dir(vec![src_file("p", 4)]);
    let index = IndexNode::Dir(Some(vec![idx_dir_entry(
        "p",
        vec![idx_file_entry("old", b"Len=1\n")],
    )]));
    let (total, changes) = diff(&source, &index, None);
    assert_eq!(total, 4);
    assert_eq!(
        changes,
        vec![
            IndexChange::RemoveDir(path(&["p"])),
            IndexChange::AddFile(path(&["p"]), rec(4, None)),
        ]
    );
}

#[test]
fn vanished_entries_are_removed() {
    let source = SourceNode::Dir(vec![]);
    let index = IndexNode::Dir(Some(vec![
        idx_file_entry("gone", b"Len=1\n"),
        idx_dir_entry("olddir", vec![]),
    ]));
    let (total, changes) = diff(&source, &index, None);
    assert_eq!(total, 0);
    assert_eq!(
        changes,
        vec![
            IndexChange::RemoveFile(path(&["gone"])),
            IndexChange::RemoveDir(path(&["olddir"])),
        ]
    );
}

#[test]
fn retry_after_partial_failure() {
    // three new files; pretend the copy of f2 failed during the apply, so
    // only f1 and f3 reached the index; the next diff finds exactly f2
    let source = SourceNode::Dir(vec![
        src_file("f1", 1),
        src_file("f2", 2),
        src_file("f3", 3),
    ]);
    let before = empty_index();
    let (_, first) = diff(&source, &before, None);
    assert_eq!(
        first,
        vec![
            IndexChange::AddFile(path(&["f1"]), rec(1, None)),
            IndexChange::AddFile(path(&["f2"]), rec(2, None)),
            IndexChange::AddFile(path(&["f3"]), rec(3, None)),
        ]
    );
    let after = IndexNode::Dir(Some(vec![
        idx_file_entry("f1", &rec(1, None).save()),
        idx_file_entry("f3", &rec(3, None).save()),
    ]));
    let (total, second) = diff(&source, &after, None);
    assert_eq!(total, 2);
    assert_eq!(
        second,
        vec![IndexChange::AddFile(path(&["f2"]), rec(2, None))]
    );
}

#[test]
fn sorting_orders_addition_batches_by_size() {
    let source = SourceNode::Dir(vec![
        src_file("big", 9),
        src_file("small", 1),
        src_file("mid", 5),
    ]);
    let index = empty_index();
    let (_, ascending) = diff(&source, &index, Some(false));
    assert_eq!(
        ascending,
        vec![
            IndexChange::AddFile(path(&["small"]), rec(1, None)),
            IndexChange::AddFile(path(&["mid"]), rec(5, None)),
            IndexChange::AddFile(path(&["big"]), rec(9, None)),
        ]
    );
    let (_, descending) = diff(&source, &index, Some(true));
    assert_eq!(
        descending,
        vec![
            IndexChange::AddFile(path(&["big"]), rec(9, None)),
            IndexChange::AddFile(path(&["mid"]), rec(5, None)),
            IndexChange::AddFile(path(&["small"]), rec(1, None)),
        ]
    );
}

#[test]
fn nested_directories_keep_their_batches_together() {
    let source = SourceNode::Dir(vec![
        src_dir("a", vec![src_dir("b", vec![src_file("c.txt", 7)])]),
        src_file("r.txt", 3),
    ]);
    let index = empty_index();
    let (total, unsorted) = diff(&source, &index, None);
    assert_eq!(total, 10);
    assert_eq!(
        unsorted,
        vec![
            IndexChange::AddDir(path(&["a"]), true, 7),
            IndexChange::AddDir(path(&["a", "b"]), true, 7),
            IndexChange::AddFile(path(&["a", "b", "c.txt"]), rec(7, None)),
            IndexChange::AddFile(path(&["r.txt"]), rec(3, None)),
        ]
    );
    // sorting reorders whole per-child batches, never their contents
    let (_, smallest_first) = diff(&source, &index, Some(false));
    assert_eq!(
        smallest_first,
        vec![
            IndexChange::AddFile(path(&["r.txt"]), rec(3, None)),
            IndexChange::AddDir(path(&["a"]), true, 7),
            IndexChange::AddDir(path(&["a", "b"]), true, 7),
            IndexChange::AddFile(path(&["a", "b", "c.txt"]), rec(7, None)),
        ]
    );
}

#[test]
fn symlink_comparison() {
    let same = SourceNode::Dir(vec![SourceEntry {
        name: b"l".to_vec(),
        node: SourceNode::Symlink(Some(b"target".to_vec())),
    }]);
    let index_same = IndexNode::Dir(Some(vec![IndexEntry {
        name: b"l".to_vec(),
        kind_dir: Some(false),
        node: IndexNode::Symlink(Some(b"target".to_vec())),
    }]));
    let (_, unchanged) = diff(&same, &index_same, None);
    assert_eq!(unchanged, Vec::new());

    let index_other = IndexNode::Dir(Some(vec![IndexEntry {
        name: b"l".to_vec(),
        kind_dir: Some(false),
        node: IndexNode::Symlink(Some(b"elsewhere".to_vec())),
    }]));
    let (_, retargeted) = diff(&same, &index_other, None);
    assert_eq!(
        retargeted,
        vec![IndexChange::AddSymlink(path(&["l"]), b"target".to_vec())]
    );
}

#[test]
fn file_becomes_symlink() {
    let source = SourceNode::Dir(vec![SourceEntry {
        name: b"l".to_vec(),
        node: SourceNode::Symlink(Some(b"t".to_vec())),
    }]);
    let index = IndexNode::Dir(Some(vec![idx_file_entry("l", b"Len=1\n")]));
    let (_, changes) = diff(&source, &index, None);
    assert_eq!(
        changes,
        vec![
            IndexChange::RemoveFile(path(&["l"])),
            IndexChange::AddSymlink(path(&["l"]), b"t".to_vec()),
        ]
    );
}

#[test]
fn directory_becoming_symlink_is_fatal() {
    let source = SourceNode::Dir(vec![SourceEntry {
        name: b"l".to_vec(),
        node: SourceNode::Symlink(Some(b"t".to_vec())),
    }]);
    let index = IndexNode::Dir(Some(vec![idx_dir_entry("l", vec![])]));
    let err = perform_index_diff(
        &source,
        &index,
        None,
        None,
        no_rules(),
        &Settings::default(),
        None,
    )
    .unwrap_err();
    assert_eq!(err.op, DiffOp::DirBecameSymlink);
    assert_eq!(err.path, path(&["l"]));
}

#[test]
fn unreadable_metadata_is_fatal() {
    let source = SourceNode::Dir(vec![SourceEntry {
        name: b"x".to_vec(),
        node: SourceNode::Unreadable(b"permission denied".to_vec()),
    }]);
    let err = perform_index_diff(
        &source,
        &empty_index(),
        None,
        None,
        no_rules(),
        &Settings::default(),
        None,
    )
    .unwrap_err();
    assert_eq!(err.op, DiffOp::GettingMetadata);
    assert_eq!(err.path, path(&["x"]));
    assert_eq!(err.detail, b"permission denied".to_vec());
}

#[test]
fn unlistable_source_directory_is_fatal() {
    let source = SourceNode::Dir(vec![SourceEntry {
        name: b"d".to_vec(),
        node: SourceNode::DirFailed(b"io error".to_vec()),
    }]);
    let err = perform_index_diff(
        &source,
        &empty_index(),
        None,
        None,
        no_rules(),
        &Settings::default(),
        None,
    )
    .unwrap_err();
    assert_eq!(err.op, DiffOp::GettingEntries);
    assert_eq!(err.path, path(&["d"]));
}

#[test]
fn unknown_index_file_type_is_fatal() {
    let source = SourceNode::Dir(vec![]);
    let index = IndexNode::Dir(Some(vec![IndexEntry {
        name: b"odd".to_vec(),
        kind_dir: None,
        node: IndexNode::File(None),
    }]));
    let err = perform_index_diff(
        &source,
        &index,
        None,
        None,
        no_rules(),
        &Settings::default(),
        None,
    )
    .unwrap_err();
    assert_eq!(err.op, DiffOp::GettingFileType);
    assert_eq!(err.path, path(&["odd"]));
}

#[test]
fn unreadable_symlink_target_is_fatal() {
    let source = SourceNode::Dir(vec![SourceEntry {
        name: b"l".to_vec(),
        node: SourceNode::Symlink(None),
    }]);
    let err = perform_index_diff(
        &source,
        &empty_index(),
        None,
        None,
        no_rules(),
        &Settings::default(),
        None,
    )
    .unwrap_err();
    assert_eq!(err.op, DiffOp::ReadingLink);
}

#[test]
fn unreadable_index_symlink_target_is_fatal() {
    let source = SourceNode::Dir(vec![SourceEntry {
        name: b"l".to_vec(),
        node: SourceNode::Symlink(Some(b"t".to_vec())),
    }]);
    let index = IndexNode::Dir(Some(vec![IndexEntry {
        name: b"l".to_vec(),
        kind_dir: Some(false),
        node: IndexNode::Symlink(None),
    }]));
    let err = perform_index_diff(
        &source,
        &index,
        None,
        None,
        no_rules(),
        &Settings::default(),
        None,
    )
    .unwrap_err();
    assert_eq!(err.op, DiffOp::ReadingIndexLink);
}

#[test]
fn ignored_entries_are_skipped_and_their_records_removed() {
    // an ignored source entry is neither added nor marked seen: a stale
    // index record under its name goes away
    let source = SourceNode::Dir(vec![src_file("x", 10), src_file("y", 20)]);
    let index = IndexNode::Dir(Some(vec![idx_file_entry("x", &rec(10, None).save())]));
    let rules = Ignore(vec![Specifier::Entries(Match::Eq(path(&["x"])))]);
    let (total, changes) = perform_index_diff(
        &source,
        &index,
        None,
        None,
        rules,
        &Settings::default(),
        None,
    )
    .unwrap();
    assert_eq!(total, 20);
    assert_eq!(
        changes,
        vec![
            IndexChange::RemoveFile(path(&["x"])),
            IndexChange::AddFile(path(&["y"]), rec(20, None)),
        ]
    );
}

#[test]
fn an_index_inside_the_source_is_excluded() {
    let source = SourceNode::Dir(vec![src_dir("backups", vec![src_file("stale", 5)])]);
    let index = empty_index();
    let inner = path(&["backups"]);
    let (total, changes) = perform_index_diff(
        &source,
        &index,
        Some(&inner),
        None,
        no_rules(),
        &Settings::default(),
        None,
    )
    .unwrap();
    assert_eq!(total, 0);
    assert_eq!(changes, Vec::new());
}

#[test]
fn replace_if_timestamp_unknown_repeats_on_purpose() {
    // with this policy, a record whose timestamp is unknown on both sides
    // is re-added on every run: re-running the diff after a successful
    // apply is not change-free here, by design
    let source = SourceNode::Dir(vec![src_file("f", 10)]);
    let mirrored = IndexNode::Dir(Some(vec![idx_file_entry("f", &rec(10, None).save())]));
    let mut settings = Settings::default();
    settings.replace_if_timestamp_unknown = true;
    let (_, changes) = perform_index_diff(
        &source,
        &mirrored,
        None,
        None,
        no_rules(),
        &settings,
        None,
    )
    .unwrap();
    assert_eq!(
        changes,
        vec![IndexChange::AddFile(path(&["f"]), rec(10, None))]
    );
}

#[test]
fn ignore_timestamp_setting_keeps_same_size_files() {
    let source = SourceNode::Dir(vec![SourceEntry {
        name: b"f".to_vec(),
        node: SourceNode::File(rec(10, Some(99))),
    }]);
    let index = IndexNode::Dir(Some(vec![idx_file_entry("f", &rec(10, Some(1)).save())]));
    let mut settings = Settings::default();
    settings.ignore_timestamp = true;
    let (_, changes) = perform_index_diff(
        &source,
        &index,
        None,
        None,
        no_rules(),
        &settings,
        None,
    )
    .unwrap();
    assert_eq!(changes, Vec::new());

    // without the flag, the newer timestamp forces the update
    let (_, updated) = diff(&source, &index, None);
    assert_eq!(
        updated,
        vec![IndexChange::AddFile(path(&["f"]), rec(10, Some(99)))]
    );
}
