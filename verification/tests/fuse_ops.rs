use binfs::fuse_ops::{
    attr_numbers, dir_entries, file_for_ino, lookup_entry, parent_id_for, resize_to, slice_read,
    write_at,
};
use binfs::{FileManifest, FsErrno, FsOp, FsSnapshot, NodeKind, ROOT_ID, ROOT_INO};

fn snapshot() -> FsSnapshot {
    let mut manifest = FileManifest::empty(4, 7);
    manifest.size = 1025;
    FsSnapshot::replay(&[
        FsOp::Mkdir {
            op_id: "m1".to_string(),
            parent: ROOT_ID.to_string(),
            name: "d".to_string(),
            object: "dir1".to_string(),
            mode: 0o755,
            mtime_ms: 1,
        },
        FsOp::CreateFile {
            op_id: "c1".to_string(),
            parent: "dir1".to_string(),
            name: "z".to_string(),
            object: "file1".to_string(),
            mode: 0o644,
            mtime_ms: 2,
        },
        FsOp::CreateFile {
            op_id: "c2".to_string(),
            parent: "dir1".to_string(),
            name: "a".to_string(),
            object: "file2".to_string(),
            mode: 0o644,
            mtime_ms: 3,
        },
        FsOp::CommitFile {
            op_id: "w1".to_string(),
            object: "file1".to_string(),
            manifest,
            mtime_ms: 4,
        },
    ])
}

#[test]
fn reads_are_clipped_to_the_contents() {
    let data = b"hello world";
    assert_eq!(slice_read(data, 0, 5), b"hello".to_vec());
    assert_eq!(slice_read(data, 6, 100), b"world".to_vec());
    assert_eq!(slice_read(data, 11, 3), Vec::<u8>::new());
    assert_eq!(slice_read(data, 50, 3), Vec::<u8>::new());
    assert_eq!(slice_read(data, 3, 0), Vec::<u8>::new());
}

#[test]
fn writes_zero_fill_gaps_and_overwrite() {
    let mut buf = b"abc".to_vec();
    write_at(&mut buf, 5, b"xy");
    assert_eq!(buf, b"abc\0\0xy".to_vec());
    write_at(&mut buf, 1, b"QQ");
    assert_eq!(buf, b"aQQ\0\0xy".to_vec());
    write_at(&mut buf, 7, b"");
    assert_eq!(buf.len(), 7);
}

#[test]
fn resizing_truncates_or_zero_extends() {
    let mut buf = b"abcdef".to_vec();
    resize_to(&mut buf, 3);
    assert_eq!(buf, b"abc".to_vec());
    resize_to(&mut buf, 5);
    assert_eq!(buf, b"abc\0\0".to_vec());
    resize_to(&mut buf, 0);
    assert!(buf.is_empty());
}

#[test]
fn attributes_count_blocks_and_links() {
    let snapshot = snapshot();
    let file = snapshot.node("file1").unwrap();
    assert_eq!(attr_numbers(file), (1025, 3, 1));
    let empty = snapshot.node("file2").unwrap();
    assert_eq!(attr_numbers(empty), (0, 0, 1));
    let dir = snapshot.node("dir1").unwrap();
    assert_eq!(attr_numbers(dir), (0, 0, 2));
}

#[test]
fn inodes_name_parents_and_files() {
    let snapshot = snapshot();
    assert_eq!(parent_id_for(&snapshot, ROOT_INO).unwrap(), ROOT_ID);
    assert_eq!(parent_id_for(&snapshot, 2).unwrap(), "dir1");
    assert_eq!(parent_id_for(&snapshot, 9).unwrap_err().errno, FsErrno::NotFound);
    assert_eq!(file_for_ino(&snapshot, 3).unwrap(), "file1");
    assert_eq!(file_for_ino(&snapshot, 2).unwrap_err().errno, FsErrno::IsDir);
    assert_eq!(file_for_ino(&snapshot, 9).unwrap_err().errno, FsErrno::NotFound);
}

#[test]
fn lookups_return_the_entry_and_its_inode() {
    let snapshot = snapshot();
    let (node, ino) = lookup_entry(&snapshot, 2, "a").unwrap();
    assert_eq!(node.id, "file2");
    assert_eq!(ino, 4);
    assert_eq!(lookup_entry(&snapshot, 2, "b").unwrap_err().errno, FsErrno::NotFound);
    assert_eq!(lookup_entry(&snapshot, 9, "a").unwrap_err().errno, FsErrno::NotFound);
}

#[test]
fn listings_start_with_dot_entries() {
    let snapshot = snapshot();
    let entries = dir_entries(&snapshot, 2).unwrap();
    let seen: Vec<(u64, NodeKind, &str)> = entries
        .iter()
        .map(|e| (e.ino, e.kind, e.name.as_str()))
        .collect();
    assert_eq!(
        seen,
        vec![
            (2, NodeKind::Directory, "."),
            (ROOT_INO, NodeKind::Directory, ".."),
            (4, NodeKind::File, "a"),
            (3, NodeKind::File, "z"),
        ]
    );
    let root = dir_entries(&snapshot, ROOT_INO).unwrap();
    assert_eq!(root[1].ino, ROOT_INO);
    assert_eq!(root.len(), 3);
    assert_eq!(dir_entries(&snapshot, 3).unwrap_err().errno, FsErrno::NotDir);
    assert_eq!(dir_entries(&snapshot, 9).unwrap_err().errno, FsErrno::NotFound);
}

#[test]
fn reads_far_past_the_end_are_empty() {
    assert!(slice_read(b"abc", u64::MAX, u32::MAX).is_empty());
    assert!(slice_read(b"abc", 3, u32::MAX).is_empty());
    assert_eq!(slice_read(b"abc", 1, u32::MAX), b"bc".to_vec());
}
