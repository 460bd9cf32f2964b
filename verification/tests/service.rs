use std::collections::HashMap;

use binfs::service::{
    check_existing_file, classify_create_error, commit_outcome, create_outcome, list_dir,
    parent_dir, path_target, read_target, rmdir_outcome, split_parent, unlink_outcome,
};
use binfs::{BinFsConfig, ChunkStore, FileManifest, FsErrno, FsError, FsOp, FsSnapshot, NodeKind, ROOT_ID};

fn mkdir(op_id: &str, object: &str, parent: &str, name: &str) -> FsOp {
    FsOp::Mkdir {
        op_id: op_id.to_string(),
        parent: parent.to_string(),
        name: name.to_string(),
        object: object.to_string(),
        mode: 0o755,
        mtime_ms: 1,
    }
}

fn create(op_id: &str, object: &str, parent: &str, name: &str) -> FsOp {
    FsOp::CreateFile {
        op_id: op_id.to_string(),
        parent: parent.to_string(),
        name: name.to_string(),
        object: object.to_string(),
        mode: 0o644,
        mtime_ms: 2,
    }
}

fn commit(op_id: &str, object: &str, manifest: FileManifest) -> FsOp {
    FsOp::CommitFile {
        op_id: op_id.to_string(),
        object: object.to_string(),
        manifest,
        mtime_ms: 3,
    }
}

fn unlink(op_id: &str, parent: &str, name: &str) -> FsOp {
    FsOp::Unlink {
        op_id: op_id.to_string(),
        parent: parent.to_string(),
        name: name.to_string(),
        mtime_ms: 4,
    }
}

fn rmdir(op_id: &str, parent: &str, name: &str) -> FsOp {
    FsOp::Rmdir {
        op_id: op_id.to_string(),
        parent: parent.to_string(),
        name: name.to_string(),
        mtime_ms: 5,
    }
}

#[test]
fn default_config_names_the_metadata_bin() {
    let config = BinFsConfig::default();
    assert_eq!(config.metadata_bin, "__fs_meta__");
    assert_eq!(config.chunk_size, 65_536);
    assert_eq!(config.data_bins, 128);
}

#[test]
fn errors_carry_their_number_and_message() {
    let err = FsError::new(FsErrno::NotFound, "gone");
    assert_eq!(err.errno, FsErrno::NotFound);
    assert_eq!(err.message, "gone");
    let err = FsError::from_storage("backend down");
    assert_eq!(err.errno, FsErrno::Io);
    assert_eq!(err.message, "backend down");
}

#[test]
fn split_parent_takes_the_last_name() {
    assert_eq!(
        split_parent("/a/file").unwrap(),
        ("/a".to_string(), "file".to_string())
    );
    assert_eq!(split_parent("/a").unwrap(), ("/".to_string(), "a".to_string()));
    assert_eq!(split_parent("a").unwrap(), ("/".to_string(), "a".to_string()));
    assert_eq!(
        split_parent("/a/b///").unwrap(),
        ("/a".to_string(), "b".to_string())
    );
    for bad in ["", "/", "///", "/a/.", "/a/.."] {
        assert_eq!(split_parent(bad).unwrap_err().errno, FsErrno::Invalid, "{bad}");
    }
}

#[test]
fn create_without_overwrite_rejects_existing_file() {
    let ops = vec![create("c1", "file1", ROOT_ID, "f")];
    let snapshot = FsSnapshot::replay(&ops);
    let first = create_outcome(&snapshot, "c1", "file1", ROOT_ID, "f", NodeKind::File).unwrap();
    let err = check_existing_file(&snapshot, ROOT_ID, "f", false).unwrap_err();
    assert_eq!(err.errno, FsErrno::Exists);
    assert_eq!(snapshot.lookup_child(ROOT_ID, "f").unwrap().id, first.id);
}

#[test]
fn existing_entries_decide_a_file_create() {
    let ops = vec![
        create("c1", "file1", ROOT_ID, "f"),
        mkdir("m1", "dir1", ROOT_ID, "d"),
    ];
    let snapshot = FsSnapshot::replay(&ops);
    let reused = check_existing_file(&snapshot, ROOT_ID, "f", true).unwrap().unwrap();
    assert_eq!(reused.id, "file1");
    assert_eq!(
        check_existing_file(&snapshot, ROOT_ID, "d", true).unwrap_err().errno,
        FsErrno::IsDir
    );
    assert!(check_existing_file(&snapshot, ROOT_ID, "new", false)
        .unwrap()
        .is_none());
}

#[test]
fn a_create_that_lost_is_classified() {
    let ops = vec![
        create("c1", "file1", ROOT_ID, "f"),
        mkdir("m1", "dir1", ROOT_ID, "d"),
        create("c2", "file2", ROOT_ID, "f"),
        create("c3", "file3", ROOT_ID, "d"),
        create("c4", "file4", "nowhere", "x"),
        create("c5", "file5", "file1", "x"),
        mkdir("m2", "dir2", ROOT_ID, "f"),
    ];
    let snapshot = FsSnapshot::replay(&ops);
    let errno = |op: &str, object: &str, parent: &str, name: &str, kind: NodeKind| {
        create_outcome(&snapshot, op, object, parent, name, kind)
            .unwrap_err()
            .errno
    };
    assert_eq!(errno("c2", "file2", ROOT_ID, "f", NodeKind::File), FsErrno::Exists);
    assert_eq!(errno("c3", "file3", ROOT_ID, "d", NodeKind::File), FsErrno::IsDir);
    assert_eq!(errno("c4", "file4", "nowhere", "x", NodeKind::File), FsErrno::NotFound);
    assert_eq!(errno("c5", "file5", "file1", "x", NodeKind::File), FsErrno::NotDir);
    assert_eq!(errno("m2", "dir2", ROOT_ID, "f", NodeKind::Directory), FsErrno::Exists);
    assert_eq!(
        classify_create_error(&snapshot, ROOT_ID, "free", NodeKind::File).errno,
        FsErrno::Io
    );
    let made = create_outcome(&snapshot, "m1", "dir1", ROOT_ID, "d", NodeKind::Directory).unwrap();
    assert_eq!(made.kind, NodeKind::Directory);
    assert_eq!(made.name, "d");
}

#[test]
fn commits_reads_and_removals_report_their_outcome() {
    let mut manifest = FileManifest::empty(4, 9);
    manifest.size = 0;
    let ops = vec![
        mkdir("m1", "dir1", ROOT_ID, "d"),
        create("c1", "file1", ROOT_ID, "f"),
        create("c2", "file2", ROOT_ID, "g"),
        commit("w1", "file1", manifest.clone()),
        commit("w2", "dir1", manifest.clone()),
        unlink("u1", ROOT_ID, "d"),
        unlink("u2", ROOT_ID, "g"),
        unlink("u3", ROOT_ID, "missing"),
        rmdir("r1", ROOT_ID, "f"),
        rmdir("r2", ROOT_ID, "missing"),
    ];
    let snapshot = FsSnapshot::replay(&ops);

    assert!(commit_outcome(&snapshot, "w1").is_ok());
    assert_eq!(commit_outcome(&snapshot, "w2").unwrap_err().errno, FsErrno::NotFound);

    assert_eq!(read_target(&snapshot, "file1").unwrap(), Some(manifest));
    assert_eq!(read_target(&snapshot, "file2").unwrap_err().errno, FsErrno::NotFound);
    assert_eq!(read_target(&snapshot, "dir1").unwrap_err().errno, FsErrno::IsDir);

    assert_eq!(unlink_outcome(&snapshot, "u1", ROOT_ID, "d").unwrap_err().errno, FsErrno::IsDir);
    assert!(unlink_outcome(&snapshot, "u2", ROOT_ID, "g").is_ok());
    assert_eq!(
        unlink_outcome(&snapshot, "u3", ROOT_ID, "missing").unwrap_err().errno,
        FsErrno::NotFound
    );
    assert_eq!(
        unlink_outcome(&snapshot, "never", ROOT_ID, "f").unwrap_err().errno,
        FsErrno::Io
    );
    assert_eq!(rmdir_outcome(&snapshot, "r1", ROOT_ID, "f").unwrap_err().errno, FsErrno::NotDir);
    assert_eq!(
        rmdir_outcome(&snapshot, "r2", ROOT_ID, "missing").unwrap_err().errno,
        FsErrno::NotFound
    );
    assert_eq!(
        rmdir_outcome(&snapshot, "never", ROOT_ID, "d").unwrap_err().errno,
        FsErrno::Io
    );
}

#[test]
fn paths_name_directories_and_files() {
    let ops = vec![
        mkdir("m1", "dir1", ROOT_ID, "a"),
        create("c1", "file1", "dir1", "file"),
        create("c2", "file2", "dir1", "another"),
    ];
    let snapshot = FsSnapshot::replay(&ops);
    assert_eq!(parent_dir(&snapshot, "/a").unwrap(), "dir1");
    assert_eq!(parent_dir(&snapshot, "/").unwrap(), ROOT_ID);
    assert_eq!(parent_dir(&snapshot, "/b").unwrap_err().errno, FsErrno::NotFound);
    assert_eq!(parent_dir(&snapshot, "/a/file").unwrap_err().errno, FsErrno::NotDir);
    assert_eq!(path_target(&snapshot, "/a/file").unwrap(), "file1");
    assert_eq!(path_target(&snapshot, "/a/nope").unwrap_err().errno, FsErrno::NotFound);
    assert_eq!(
        list_dir(&snapshot, "/a").unwrap(),
        vec!["another".to_string(), "file".to_string()]
    );
    assert_eq!(list_dir(&snapshot, "/").unwrap(), vec!["a".to_string()]);
    assert_eq!(list_dir(&snapshot, "/a/file").unwrap_err().errno, FsErrno::NotDir);
    assert_eq!(list_dir(&snapshot, "/gone").unwrap_err().errno, FsErrno::NotFound);
}

/// The service's storage, in memory: the metadata log and the data bins.
struct MemService {
    ops: Vec<FsOp>,
    chunks: HashMap<(String, String), String>,
    store: ChunkStore,
    next: usize,
}

impl MemService {
    fn new() -> Self {
        MemService {
            ops: Vec::new(),
            chunks: HashMap::new(),
            store: ChunkStore::new(4, 8),
            next: 0,
        }
    }

    fn fresh(&mut self, prefix: &str) -> String {
        self.next += 1;
        format!("{prefix}:{}", self.next)
    }

    fn snapshot(&self) -> FsSnapshot {
        FsSnapshot::replay(&self.ops)
    }

    fn resolve_parent(&self, path: &str) -> Result<(String, String), FsError> {
        let (parent_path, name) = split_parent(path)?;
        Ok((parent_dir(&self.snapshot(), &parent_path)?, name))
    }

    fn mkdir_path(&mut self, path: &str) -> Result<(), FsError> {
        let (parent, name) = self.resolve_parent(path)?;
        let (op_id, object) = (self.fresh("op"), self.fresh("dir"));
        self.ops.push(mkdir(&op_id, &object, &parent, &name));
        create_outcome(&self.snapshot(), &op_id, &object, &parent, &name, NodeKind::Directory)
            .map(|_| ())
    }

    fn write_file_path(&mut self, path: &str, data: &[u8]) -> Result<(), FsError> {
        let (parent, name) = self.resolve_parent(path)?;
        let node = match check_existing_file(&self.snapshot(), &parent, &name, true)? {
            Some(node) => node,
            None => {
                let (op_id, object) = (self.fresh("op"), self.fresh("file"));
                self.ops.push(create(&op_id, &object, &parent, &name));
                create_outcome(&self.snapshot(), &op_id, &object, &parent, &name, NodeKind::File)?
            }
        };
        let (manifest, writes) = self.store.plan_store(data, 7);
        for w in writes {
            self.chunks.insert((w.bin, w.key), w.value);
        }
        let op_id = self.fresh("op");
        self.ops.push(commit(&op_id, &node.id, manifest));
        commit_outcome(&self.snapshot(), &op_id)
    }

    fn read_file_path(&self, path: &str) -> Result<Vec<u8>, FsError> {
        let snapshot = self.snapshot();
        let object = path_target(&snapshot, path)?;
        match read_target(&snapshot, &object)? {
            None => Ok(Vec::new()),
            Some(manifest) => {
                let stored: Vec<Option<String>> = manifest
                    .chunks
                    .iter()
                    .map(|c| self.chunks.get(&(c.bin.clone(), c.key.clone())).cloned())
                    .collect();
                ChunkStore::load_chunks(&manifest, &stored)
                    .map_err(|_| FsError::from_storage("chunk load failed"))
            }
        }
    }

    fn unlink_path(&mut self, path: &str) -> Result<(), FsError> {
        let (parent, name) = self.resolve_parent(path)?;
        let op_id = self.fresh("op");
        self.ops.push(unlink(&op_id, &parent, &name));
        unlink_outcome(&self.snapshot(), &op_id, &parent, &name)
    }

    fn rmdir_path(&mut self, path: &str) -> Result<(), FsError> {
        let (parent, name) = self.resolve_parent(path)?;
        let op_id = self.fresh("op");
        self.ops.push(rmdir(&op_id, &parent, &name));
        rmdir_outcome(&self.snapshot(), &op_id, &parent, &name)
    }
}

#[test]
fn service_runs_named_command_flow() {
    let mut fs = MemService::new();

    fs.mkdir_path("/a").unwrap();
    fs.write_file_path("/a/file", b"hello world").unwrap();
    assert_eq!(list_dir(&fs.snapshot(), "/a").unwrap(), vec!["file".to_string()]);
    assert_eq!(fs.read_file_path("/a/file").unwrap(), b"hello world");
    fs.write_file_path("/a/file", b"bye").unwrap();
    assert_eq!(fs.read_file_path("/a/file").unwrap(), b"bye");
    fs.unlink_path("/a/file").unwrap();
    fs.rmdir_path("/a").unwrap();
    assert!(list_dir(&fs.snapshot(), "/a").is_err());
}

#[test]
fn rmdir_rejects_non_empty_directory() {
    let mut fs = MemService::new();

    fs.mkdir_path("/a").unwrap();
    fs.write_file_path("/a/file", b"hello").unwrap();
    let err = fs.rmdir_path("/a").unwrap_err();
    assert_eq!(err.errno, FsErrno::NotEmpty);
}

#[test]
fn errors_describe_what_went_wrong() {
    assert_eq!(split_parent("/").unwrap_err().message, "path has no parent");
    assert_eq!(split_parent("/a/..").unwrap_err().message, "invalid path name");
    let snapshot = FsSnapshot::replay(&[mkdir("m1", "dir1", ROOT_ID, "a")]);
    assert_eq!(list_dir(&snapshot, "/b").unwrap_err().message, "directory not found");
    assert_eq!(
        classify_create_error(&snapshot, "nowhere", "x", NodeKind::File).message,
        "parent not found"
    );
}
