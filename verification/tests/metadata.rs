use binfs::{FileManifest, FsOp, FsSnapshot, NodeKind, ROOT_ID};

fn mkdir(op_id: &str, object: &str, name: &str) -> FsOp {
    FsOp::Mkdir {
        op_id: op_id.to_string(),
        parent: ROOT_ID.to_string(),
        name: name.to_string(),
        object: object.to_string(),
        mode: 0o755,
        mtime_ms: 1,
    }
}

fn create(op_id: &str, object: &str, parent: &str, name: &str) -> FsOp {
    FsOp::CreateFile {
        op_id: op_id.to_string(),
        parent: parent.to_string(),
        name: name.to_string(),
        object: object.to_string(),
        mode: 0o644,
        mtime_ms: 2,
    }
}

fn unlink(op_id: &str, parent: &str, name: &str) -> FsOp {
    FsOp::Unlink {
        op_id: op_id.to_string(),
        parent: parent.to_string(),
        name: name.to_string(),
        mtime_ms: 4,
    }
}

fn rmdir(op_id: &str, parent: &str, name: &str) -> FsOp {
    FsOp::Rmdir {
        op_id: op_id.to_string(),
        parent: parent.to_string(),
        name: name.to_string(),
        mtime_ms: 5,
    }
}

#[test]
fn replays_directories_and_files() {
    let ops = vec![
        mkdir("m1", "dir1", "a"),
        create("c1", "file1", "dir1", "hello"),
    ];
    let snapshot = FsSnapshot::replay(&ops);

    assert_eq!(
        snapshot.resolve_path("/a").unwrap().kind,
        NodeKind::Directory
    );
    assert_eq!(
        snapshot.resolve_path("/a/hello").unwrap().kind,
        NodeKind::File
    );
    assert_eq!(snapshot.ino_for_id("dir1"), Some(2));
    assert_eq!(snapshot.ino_for_id("file1"), Some(3));
}

#[test]
fn rejects_duplicate_create_by_log_order() {
    let ops = vec![
        create("c1", "file1", ROOT_ID, "same"),
        create("c2", "file2", ROOT_ID, "same"),
    ];
    let snapshot = FsSnapshot::replay(&ops);

    assert!(snapshot.op_effective("c1"));
    assert!(!snapshot.op_effective("c2"));
    assert_eq!(snapshot.lookup_child(ROOT_ID, "same").unwrap().id, "file1");
}

#[test]
fn overwrites_file_manifest_by_last_valid_commit() {
    let first = FileManifest::empty(64, 10);
    let mut second = FileManifest::empty(64, 11);
    second.size = 12;
    let ops = vec![
        create("c1", "file1", ROOT_ID, "f"),
        FsOp::CommitFile {
            op_id: "w1".to_string(),
            object: "file1".to_string(),
            manifest: first,
            mtime_ms: 10,
        },
        FsOp::CommitFile {
            op_id: "w2".to_string(),
            object: "file1".to_string(),
            manifest: second,
            mtime_ms: 11,
        },
    ];
    let snapshot = FsSnapshot::replay(&ops);

    assert_eq!(
        snapshot
            .resolve_path("/f")
            .unwrap()
            .manifest
            .as_ref()
            .unwrap()
            .size,
        12
    );
}

#[test]
fn rejects_non_empty_rmdir_then_allows_after_unlink() {
    let ops = vec![
        mkdir("m1", "dir1", "a"),
        create("c1", "file1", "dir1", "f"),
        FsOp::Rmdir {
            op_id: "r1".to_string(),
            parent: ROOT_ID.to_string(),
            name: "a".to_string(),
            mtime_ms: 3,
        },
        FsOp::Unlink {
            op_id: "u1".to_string(),
            parent: "dir1".to_string(),
            name: "f".to_string(),
            mtime_ms: 4,
        },
        FsOp::Rmdir {
            op_id: "r2".to_string(),
            parent: ROOT_ID.to_string(),
            name: "a".to_string(),
            mtime_ms: 5,
        },
    ];
    let snapshot = FsSnapshot::replay(&ops);

    assert!(!snapshot.op_effective("r1"));
    assert!(snapshot.op_effective("r2"));
    assert!(snapshot.resolve_path("/a").is_none());
}

#[test]
fn empty_log_holds_only_the_root() {
    let snapshot = FsSnapshot::replay(&[]);
    let root = snapshot.resolve_path("/").unwrap();
    assert_eq!(root.id, ROOT_ID);
    assert_eq!(root.kind, NodeKind::Directory);
    assert_eq!(snapshot.resolve_path("").unwrap().id, ROOT_ID);
    assert_eq!(snapshot.node_by_ino(1).unwrap().id, ROOT_ID);
    assert_eq!(snapshot.id_for_ino(1), Some(ROOT_ID));
    assert_eq!(snapshot.ino_for_id(ROOT_ID), Some(1));
    assert_eq!(snapshot.live_node_count(), 1);
    assert!(snapshot.children_of(ROOT_ID).is_empty());
    assert!(snapshot.node_by_ino(0).is_none());
    assert!(snapshot.node_by_ino(2).is_none());
    assert!(!snapshot.op_effective("anything"));
}

#[test]
fn refuses_bad_names_and_missing_parents() {
    let ops = vec![
        create("c1", "file1", ROOT_ID, ""),
        create("c2", "file2", ROOT_ID, "a/b"),
        create("c3", ROOT_ID, ROOT_ID, "root-again"),
        create("c4", "file4", "nowhere", "x"),
        create("c5", "file5", ROOT_ID, "ok"),
        create("c6", "file6", "file5", "inside-a-file"),
        create("c7", "file5", ROOT_ID, "same-object"),
    ];
    let snapshot = FsSnapshot::replay(&ops);
    for id in ["c1", "c2", "c3", "c4", "c6", "c7"] {
        assert!(!snapshot.op_effective(id), "{id} should not take effect");
    }
    assert!(snapshot.op_effective("c5"));
    assert_eq!(snapshot.live_node_count(), 2);
    assert_eq!(snapshot.ino_for_id("file5"), Some(2));
}

#[test]
fn unlink_and_rmdir_check_the_kind() {
    let ops = vec![
        mkdir("m1", "dir1", "d"),
        create("c1", "file1", ROOT_ID, "f"),
        unlink("u1", ROOT_ID, "d"),
        rmdir("r1", ROOT_ID, "f"),
        unlink("u2", ROOT_ID, "f"),
        rmdir("r2", ROOT_ID, "d"),
        unlink("u3", ROOT_ID, "f"),
    ];
    let snapshot = FsSnapshot::replay(&ops);
    assert!(!snapshot.op_effective("u1"));
    assert!(!snapshot.op_effective("r1"));
    assert!(snapshot.op_effective("u2"));
    assert!(snapshot.op_effective("r2"));
    assert!(!snapshot.op_effective("u3"));
    assert_eq!(snapshot.live_node_count(), 1);
    // Removed nodes keep their inode numbers.
    assert_eq!(snapshot.ino_for_id("file1"), Some(3));
    assert!(snapshot.node("file1").is_none());
    assert!(snapshot.node_by_ino(3).is_none());
}

#[test]
fn a_name_can_be_reused_after_removal() {
    let ops = vec![
        create("c1", "file1", ROOT_ID, "f"),
        unlink("u1", ROOT_ID, "f"),
        create("c2", "file2", ROOT_ID, "f"),
    ];
    let snapshot = FsSnapshot::replay(&ops);
    assert!(snapshot.op_effective("c2"));
    assert_eq!(snapshot.child_id(ROOT_ID, "f"), Some("file2"));
    assert_eq!(snapshot.ino_for_id("file2"), Some(3));
}

#[test]
fn commit_to_a_directory_or_removed_file_has_no_effect() {
    let ops = vec![
        mkdir("m1", "dir1", "d"),
        FsOp::CommitFile {
            op_id: "w1".to_string(),
            object: "dir1".to_string(),
            manifest: FileManifest::empty(4, 1),
            mtime_ms: 1,
        },
        create("c1", "file1", ROOT_ID, "f"),
        unlink("u1", ROOT_ID, "f"),
        FsOp::CommitFile {
            op_id: "w2".to_string(),
            object: "file1".to_string(),
            manifest: FileManifest::empty(4, 1),
            mtime_ms: 2,
        },
    ];
    let snapshot = FsSnapshot::replay(&ops);
    assert!(!snapshot.op_effective("w1"));
    assert!(!snapshot.op_effective("w2"));
}

#[test]
fn children_are_listed_in_name_order() {
    let ops = vec![
        create("c1", "f1", ROOT_ID, "zeta"),
        create("c2", "f2", ROOT_ID, "Alpha"),
        create("c3", "f3", ROOT_ID, "beta"),
        create("c4", "f4", ROOT_ID, "alpha"),
        mkdir("m1", "d1", "b"),
    ];
    let snapshot = FsSnapshot::replay(&ops);
    let names: Vec<&str> = snapshot
        .children_of(ROOT_ID)
        .iter()
        .map(|n| n.name.as_str())
        .collect();
    assert_eq!(names, vec!["Alpha", "alpha", "b", "beta", "zeta"]);
}

#[test]
fn the_last_entry_with_an_op_id_decides() {
    let ops = vec![
        create("same", "file1", ROOT_ID, "f"),
        create("same", "file2", ROOT_ID, "f"),
    ];
    let snapshot = FsSnapshot::replay(&ops);
    assert!(!snapshot.op_effective("same"));
    assert_eq!(
        ops[0].op_id(),
        "same"
    );
}

#[test]
fn paths_ignore_repeated_slashes() {
    let ops = vec![
        mkdir("m1", "dir1", "a"),
        create("c1", "file1", "dir1", "b"),
    ];
    let snapshot = FsSnapshot::replay(&ops);
    assert_eq!(snapshot.resolve_path("//a///b/").unwrap().id, "file1");
    assert!(snapshot.resolve_path("/a/c").is_none());
    assert!(snapshot.resolve_path("/a/b/c").is_none());
}

#[test]
fn inode_numbers_survive_a_longer_log() {
    let ops = vec![
        mkdir("m1", "dir1", "a"),
        create("c1", "file1", "dir1", "x"),
        create("c2", "file2", ROOT_ID, "y"),
        unlink("u1", "dir1", "x"),
        create("c3", "file3", "dir1", "x"),
        rmdir("r1", ROOT_ID, "a"),
    ];
    for k in 0..ops.len() {
        let before = FsSnapshot::replay(&ops[..k]);
        let after = FsSnapshot::replay(&ops);
        for id in [ROOT_ID, "dir1", "file1", "file2", "file3"] {
            if let Some(ino) = before.ino_for_id(id) {
                assert_eq!(after.ino_for_id(id), Some(ino), "{id} after {k} entries");
                if before.node(id).is_none() {
                    assert!(after.node(id).is_none());
                }
            }
        }
    }
}

#[test]
fn counts_and_inodes_follow_effective_entries() {
    let ops = vec![
        mkdir("m1", "dir1", "a"),
        create("c1", "file1", "dir1", "x"),
        create("c2", "file2", "dir1", "x"),
        create("c3", "file3", ROOT_ID, "y"),
        unlink("u1", "dir1", "x"),
        unlink("u2", "dir1", "x"),
    ];
    let snapshot = FsSnapshot::replay(&ops);
    // Three creates and one unlink took effect.
    assert_eq!(snapshot.live_node_count(), 1 + 3 - 1);
    assert_eq!(snapshot.ino_for_id("dir1"), Some(2));
    assert_eq!(snapshot.ino_for_id("file1"), Some(3));
    assert_eq!(snapshot.ino_for_id("file3"), Some(4));
    assert_eq!(snapshot.ino_for_id("file2"), None);
    assert_eq!(snapshot.id_for_ino(4), Some("file3"));
    assert_eq!(snapshot.node_by_ino(4).unwrap().id, "file3");
    assert_eq!(snapshot.id_for_ino(3), None);
    assert!(snapshot.op_effective("u1"));
    assert!(!snapshot.op_effective("u2"));
}

#[test]
fn queries_agree_with_one_another() {
    let ops = vec![
        mkdir("m1", "dir1", "a"),
        create("c1", "file1", "dir1", "x"),
    ];
    let snapshot = FsSnapshot::replay(&ops);
    assert!(snapshot.children_of("file1").is_empty());
    assert!(snapshot.children_of("nowhere").is_empty());
    let child = snapshot.child_id("dir1", "x").unwrap();
    let node = snapshot.node(child).unwrap();
    assert_eq!(node.parent.as_deref(), Some("dir1"));
    assert_eq!(node.name, "x");
    let ino = snapshot.ino_for_id(child).unwrap();
    assert_eq!(snapshot.id_for_ino(ino), Some(child));
    assert_eq!(snapshot.node_by_ino(ino).unwrap().id, child);
    assert_eq!(snapshot.id_for_ino(1), Some(ROOT_ID));
}
