use rembackup::apply_indexchanges::{
    index_action, reorder_for_apply, target_action, ApplyRun, IndexAction, TargetAction,
};
use rembackup::indexchanges::IndexChange;
use rembackup::indexfile::IndexFile;

fn path(parts: &[&str]) -> Vec<Vec<u8>> {
    parts.iter().map(|p| p.as_bytes().to_vec()).collect()
}

fn rec(size: u64, last_modified: Option<u64>) -> IndexFile {
    IndexFile { size, last_modified }
}

#[test]
fn symlink_additions_run_last() {
    // even when a symlink addition comes first, the removal runs before it
    let changes = vec![
        IndexChange::AddSymlink(path(&["b"]), b"t".to_vec()),
        IndexChange::RemoveDir(path(&["a"])),
    ];
    let ordered = reorder_for_apply(changes);
    assert_eq!(
        ordered,
        vec![
            IndexChange::RemoveDir(path(&["a"])),
            IndexChange::AddSymlink(path(&["b"]), b"t".to_vec()),
        ]
    );
}

#[test]
fn reorder_keeps_relative_order_within_each_part() {
    let changes = vec![
        IndexChange::AddSymlink(path(&["s1"]), b"x".to_vec()),
        IndexChange::AddDir(path(&["d"]), true, 0),
        IndexChange::AddSymlink(path(&["s2"]), b"y".to_vec()),
        IndexChange::AddFile(path(&["f"]), rec(1, None)),
    ];
    let ordered = reorder_for_apply(changes);
    assert_eq!(
        ordered,
        vec![
            IndexChange::AddDir(path(&["d"]), true, 0),
            IndexChange::AddFile(path(&["f"]), rec(1, None)),
            IndexChange::AddSymlink(path(&["s1"]), b"x".to_vec()),
            IndexChange::AddSymlink(path(&["s2"]), b"y".to_vec()),
        ]
    );
}

#[test]
fn target_actions_per_change() {
    assert_eq!(
        target_action(&IndexChange::AddDir(path(&["d"]), true, 3)),
        TargetAction::CreateDirAll(path(&["d"]))
    );
    // an existing directory needs no target-side work
    assert_eq!(
        target_action(&IndexChange::AddDir(path(&["d"]), false, 3)),
        TargetAction::Nothing
    );
    assert_eq!(
        target_action(&IndexChange::AddFile(path(&["f"]), rec(1, None))),
        TargetAction::CopyFile(path(&["f"]))
    );
    assert_eq!(
        target_action(&IndexChange::AddSymlink(path(&["l"]), b"t".to_vec())),
        TargetAction::CreateSymlink(path(&["l"]), b"t".to_vec())
    );
    assert_eq!(
        target_action(&IndexChange::RemoveFile(path(&["f"]))),
        TargetAction::RemoveFile(path(&["f"]))
    );
    assert_eq!(
        target_action(&IndexChange::RemoveDir(path(&["d"]))),
        TargetAction::RemoveDirAll(path(&["d"]))
    );
}

#[test]
fn index_actions_per_change() {
    // the record written under the index is exactly the file's saved text
    assert_eq!(
        index_action(&IndexChange::AddFile(path(&["f"]), rec(10, Some(7)))),
        IndexAction::WriteRecord(path(&["f"]), b"Len=10\nAge=7\n".to_vec())
    );
    assert_eq!(
        index_action(&IndexChange::AddDir(path(&["d"]), true, 0)),
        IndexAction::CreateDirAll(path(&["d"]))
    );
    assert_eq!(
        index_action(&IndexChange::AddDir(path(&["d"]), false, 0)),
        IndexAction::Nothing
    );
    assert_eq!(
        index_action(&IndexChange::AddSymlink(path(&["l"]), b"t".to_vec())),
        IndexAction::CreateSymlink(path(&["l"]), b"t".to_vec())
    );
    assert_eq!(
        index_action(&IndexChange::RemoveFile(path(&["f"]))),
        IndexAction::RemoveFile(path(&["f"]))
    );
    assert_eq!(
        index_action(&IndexChange::RemoveDir(path(&["d"]))),
        IndexAction::RemoveDirAll(path(&["d"]))
    );
}

#[test]
fn run_counters_track_failures_and_bytes() {
    let mut run = ApplyRun::new(3, 100);
    assert_eq!(run.failures, 3);
    run.record(true, 40);
    run.record(false, 0);
    run.record(true, 60);
    assert_eq!(run.changes_done, 3);
    assert_eq!(run.failures, 1);
    assert_eq!(run.bytes_done, 100);
    assert_eq!(run.bytes_total, 100);
}
