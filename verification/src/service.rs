//! The decisions of the filesystem service: what each request answers, given the snapshot
//! that the metadata log yields before or after the request's own entry.
use vstd::prelude::*;

use crate::errno::FsErrno;
use crate::metadata::{
    child_node, has_live_children, is_listing, last_effect, live_node, node_refs_view, resolve_spec,
    FsSnapshot, Node, NodeKind, NodeView,
};
use crate::chunks::{FileManifest, ManifestView};
use crate::text::{chars_of, contains_char, last_index_in, last_index_of, substring, trim_end, trimmed_len};

verus! {

/// Where the service keeps its metadata log and how it cuts files into chunks.
#[derive(Debug, Clone)]
pub struct BinFsConfig {
    pub metadata_bin: String,
    pub chunk_size: usize,
    pub data_bins: usize,
}

impl Default for BinFsConfig {
    fn default() -> (r: Self)
        ensures
            r.metadata_bin@ == "__fs_meta__"@,
            r.chunk_size == 65_536,
            r.data_bins == 128,
    {
        BinFsConfig {
            metadata_bin: String::from_str("__fs_meta__"),
            chunk_size: 65_536,
            data_bins: 128,
        }
    }
}

/// A failed filesystem request: the kind of failure and a description.
#[derive(Debug, Clone)]
pub struct FsError {
    pub errno: FsErrno,
    pub message: String,
}

impl FsError {
    pub fn new(errno: FsErrno, message: &str) -> (r: FsError)
        ensures
            r.errno == errno,
            r.message@ == message@,
    {
        FsError { errno, message: String::from_str(message) }
    }

    /// The error that a failure of the storage below is reported as.
    pub fn from_storage(message: &str) -> (r: FsError)
        ensures
            r.errno == FsErrno::Io,
            r.message@ == message@,
    {
        FsError::new(FsErrno::Io, message)
    }
}

/// What a filesystem request returns.
pub type FsResult<T> = Result<T, FsError>;

/// Whether `r` is the error of kind `errno` with description `message`.
pub open spec fn fails_with<T>(r: Result<T, FsError>, errno: FsErrno, message: Seq<char>) -> bool {
    r matches Err(e) && e.errno == errno && e.message@ == message
}

/// The parent path and the last name of `path`, once trailing `/` are dropped; `None`
/// where the path has no parent or its last name is `.` or `..`.
pub open spec fn split_parent_spec(path: Seq<char>) -> Option<(Seq<char>, Seq<char>)> {
    let t = trim_end(path, '/');
    if t.len() == 0 {
        None
    } else {
        let parent = match last_index_of(t, '/') {
            Some(i) => t.take(i),
            None => Seq::empty(),
        };
        let name = match last_index_of(t, '/') {
            Some(i) => t.skip(i + 1),
            None => t,
        };
        if name.len() == 0 || name == seq!['.'] || name == seq!['.', '.'] || name.contains('/') {
            None
        } else {
            Some((if parent.len() == 0 { seq!['/'] } else { parent }, name))
        }
    }
}

/// Splits `path` into its parent path and last name.
pub fn split_parent(path: &str) -> (r: Result<(String, String), FsError>)
    ensures
        match split_parent_spec(path@) {
            Some((parent, name)) => r matches Ok((p, n)) && p@ == parent && n@ == name,
            None => if trim_end(path@, '/').len() == 0 {
                fails_with(r, FsErrno::Invalid, "path has no parent"@)
            } else {
                fails_with(r, FsErrno::Invalid, "invalid path name"@)
            },
        },
{
    let v = chars_of(path);
    let n = trimmed_len(&v, '/');
    if n == 0 {
        return Err(FsError::new(FsErrno::Invalid, "path has no parent"));
    }
    let (parent, name) = match last_index_in(&v, n, '/') {
        Some(i) => {
            proof {
                crate::text::lemma_last_index_of_bounds(path@.take(n as int), '/');
            }
            let p = substring(path, 0, i);
            let nm = substring(path, i + 1, n);
            assert(p@ =~= path@.take(n as int).take(i as int));
            assert(nm@ =~= path@.take(n as int).skip(i + 1));
            (p, nm)
        },
        None => {
            let nm = substring(path, 0, n);
            (String::new(), nm)
        },
    };
    proof {
        reveal_strlit(".");
        reveal_strlit("..");
        reveal_strlit("/");
        assert("."@ =~= seq!['.']);
        assert(".."@ =~= seq!['.', '.']);
        assert("/"@ =~= seq!['/']);
    }
    if name.as_str().is_empty() || name == String::from_str(".") || name == String::from_str("..")
        || contains_char(name.as_str(), '/') {
        return Err(FsError::new(FsErrno::Invalid, "invalid path name"));
    }
    let parent = if parent.as_str().is_empty() {
        String::from_str("/")
    } else {
        parent
    };
    Ok((parent, name))
}

} // verus!

verus! {

/// The error (kind and description) that a create which did not take effect is
/// answered with.
pub open spec fn create_error_spec(
    nodes: Seq<NodeView>,
    parent: Seq<char>,
    name: Seq<char>,
    kind: NodeKind,
) -> (FsErrno, Seq<char>) {
    match live_node(nodes, parent) {
        None => (FsErrno::NotFound, "parent not found"@),
        Some(p) => if p.kind != NodeKind::Directory {
            (FsErrno::NotDir, "parent is not a directory"@)
        } else {
            match child_node(nodes, parent, name) {
                Some(c) => if kind == NodeKind::File && c.kind == NodeKind::Directory {
                    (FsErrno::IsDir, "destination is a directory"@)
                } else {
                    (FsErrno::Exists, "entry already exists"@)
                },
                None => (FsErrno::Io, "metadata operation was not effective"@),
            }
        },
    }
}

/// Why a create of `name` in `parent` did not take effect, as the snapshot after it shows.
pub fn classify_create_error(snapshot: &FsSnapshot, parent: &str, name: &str, kind: NodeKind) -> (e:
    FsError)
    ensures
        (e.errno, e.message@) == create_error_spec(snapshot@.nodes, parent@, name@, kind),
{
    match snapshot.node(parent) {
        None => FsError::new(FsErrno::NotFound, "parent not found"),
        Some(node) => {
            if node.kind != NodeKind::Directory {
                FsError::new(FsErrno::NotDir, "parent is not a directory")
            } else {
                match snapshot.lookup_child(parent, name) {
                    Some(child) => {
                        if kind == NodeKind::File && child.kind == NodeKind::Directory {
                            FsError::new(FsErrno::IsDir, "destination is a directory")
                        } else {
                            FsError::new(FsErrno::Exists, "entry already exists")
                        }
                    },
                    None => FsError::new(FsErrno::Io, "metadata operation was not effective"),
                }
            }
        },
    }
}

/// The answer of a create (of a directory or a file) once its log entry `op_id` for node
/// `object` is in the log: the new node where it took effect, else why not.
pub fn create_outcome(
    snapshot: &FsSnapshot,
    op_id: &str,
    object: &str,
    parent: &str,
    name: &str,
    kind: NodeKind,
) -> (r: Result<Node, FsError>)
    ensures
        last_effect(snapshot@.effects, op_id@) ==> match live_node(snapshot@.nodes, object@) {
            Some(n) => r matches Ok(m) && m@ == n,
            None => fails_with(r, FsErrno::Io, "create op effective but node missing"@),
        },
        !last_effect(snapshot@.effects, op_id@) ==> ({
            let (errno, message) = create_error_spec(snapshot@.nodes, parent@, name@, kind);
            fails_with(r, errno, message)
        }),
{
    if snapshot.op_effective(op_id) {
        match snapshot.node(object) {
            Some(node) => Ok(node.copy()),
            None => Err(FsError::new(FsErrno::Io, "create op effective but node missing")),
        }
    } else {
        Err(classify_create_error(snapshot, parent, name, kind))
    }
}

/// What a create of file `name` in `parent` finds before writing its log entry: an
/// existing directory refuses it, an existing file is reused where `overwrite` allows it
/// and refused otherwise, and `Ok(None)` means that the create goes ahead.
pub fn check_existing_file(snapshot: &FsSnapshot, parent: &str, name: &str, overwrite: bool) -> (r:
    Result<Option<Node>, FsError>)
    ensures
        match child_node(snapshot@.nodes, parent@, name@) {
            Some(c) => if c.kind == NodeKind::Directory {
                fails_with(r, FsErrno::IsDir, "destination is a directory"@)
            } else if overwrite {
                r matches Ok(Some(n)) && n@ == c
            } else {
                fails_with(r, FsErrno::Exists, "file already exists"@)
            },
            None => r matches Ok(None),
        },
{
    match snapshot.lookup_child(parent, name) {
        Some(existing) => {
            if existing.kind == NodeKind::Directory {
                Err(FsError::new(FsErrno::IsDir, "destination is a directory"))
            } else if overwrite {
                Ok(Some(existing.copy()))
            } else {
                Err(FsError::new(FsErrno::Exists, "file already exists"))
            }
        },
        None => Ok(None),
    }
}

/// The answer of a commit once its log entry `op_id` is in the log.
pub fn commit_outcome(snapshot: &FsSnapshot, op_id: &str) -> (r: Result<(), FsError>)
    ensures
        last_effect(snapshot@.effects, op_id@) <==> r is Ok,
        !last_effect(snapshot@.effects, op_id@) ==> fails_with(r, FsErrno::NotFound, "file no longer exists"@),
{
    if snapshot.op_effective(op_id) {
        Ok(())
    } else {
        Err(FsError::new(FsErrno::NotFound, "file no longer exists"))
    }
}

pub open spec fn opt_manifest(o: Option<FileManifest>) -> Option<ManifestView> {
    match o {
        Some(m) => Some(m@),
        None => None,
    }
}

/// What a read of node `object` must load: its manifest, or `Ok(None)` for a file never
/// committed (which reads as empty).
pub fn read_target(snapshot: &FsSnapshot, object: &str) -> (r: Result<Option<FileManifest>, FsError>)
    ensures
        match live_node(snapshot@.nodes, object@) {
            None => fails_with(r, FsErrno::NotFound, "file not found"@),
            Some(n) => if n.kind != NodeKind::File {
                fails_with(r, FsErrno::IsDir, "cannot read a directory"@)
            } else {
                r matches Ok(m) && opt_manifest(m) == n.manifest
            },
        },
{
    match snapshot.node(object) {
        None => Err(FsError::new(FsErrno::NotFound, "file not found")),
        Some(node) => {
            if node.kind != NodeKind::File {
                return Err(FsError::new(FsErrno::IsDir, "cannot read a directory"));
            }
            match &node.manifest {
                None => Ok(None),
                Some(m) => Ok(Some(m.copy())),
            }
        },
    }
}

/// The answer of an unlink once its log entry `op_id` is in the log.
pub fn unlink_outcome(snapshot: &FsSnapshot, op_id: &str, parent: &str, name: &str) -> (r: Result<
    (),
    FsError,
>)
    ensures
        last_effect(snapshot@.effects, op_id@) <==> r is Ok,
        !last_effect(snapshot@.effects, op_id@) ==> match child_node(snapshot@.nodes, parent@, name@) {
            Some(c) => if c.kind == NodeKind::Directory {
                fails_with(r, FsErrno::IsDir, "target is a directory"@)
            } else {
                fails_with(r, FsErrno::Io, "unlink lost a metadata race"@)
            },
            None => fails_with(r, FsErrno::NotFound, "file not found"@),
        },
{
    if snapshot.op_effective(op_id) {
        Ok(())
    } else {
        match snapshot.lookup_child(parent, name) {
            Some(node) => {
                if node.kind == NodeKind::Directory {
                    Err(FsError::new(FsErrno::IsDir, "target is a directory"))
                } else {
                    Err(FsError::new(FsErrno::Io, "unlink lost a metadata race"))
                }
            },
            None => Err(FsError::new(FsErrno::NotFound, "file not found")),
        }
    }
}

/// The answer of an rmdir once its log entry `op_id` is in the log.
pub fn rmdir_outcome(snapshot: &FsSnapshot, op_id: &str, parent: &str, name: &str) -> (r: Result<
    (),
    FsError,
>)
    ensures
        last_effect(snapshot@.effects, op_id@) <==> r is Ok,
        !last_effect(snapshot@.effects, op_id@) ==> match child_node(snapshot@.nodes, parent@, name@) {
            Some(c) => if c.kind == NodeKind::File {
                fails_with(r, FsErrno::NotDir, "target is not a directory"@)
            } else if has_live_children(snapshot@.nodes, c.id) {
                fails_with(r, FsErrno::NotEmpty, "directory is not empty"@)
            } else {
                fails_with(r, FsErrno::Io, "rmdir lost a metadata race"@)
            },
            None => fails_with(r, FsErrno::NotFound, "directory not found"@),
        },
{
    if snapshot.op_effective(op_id) {
        Ok(())
    } else {
        match snapshot.lookup_child(parent, name) {
            Some(node) => {
                if node.kind == NodeKind::File {
                    Err(FsError::new(FsErrno::NotDir, "target is not a directory"))
                } else {
                    let children = snapshot.children_of(node.id.as_str());
                    proof {
                        let nodes = snapshot@.nodes;
                        let s = node_refs_view(children@);
                        if has_live_children(nodes, node@.id) {
                            let k = choose|k: int|
                                0 <= k < nodes.len() && nodes[k].live && nodes[k].parent == Some(
                                    node@.id,
                                );
                            assert(crate::metadata::is_child_at(nodes, k, node@.id));
                            assert(s.contains(nodes[k]));
                        }
                        if s.len() > 0 {
                            assert(crate::metadata::is_some_child(nodes, node@.id, s[0]));
                        }
                    }
                    if children.len() > 0 {
                        Err(FsError::new(FsErrno::NotEmpty, "directory is not empty"))
                    } else {
                        Err(FsError::new(FsErrno::Io, "rmdir lost a metadata race"))
                    }
                }
            },
            None => Err(FsError::new(FsErrno::NotFound, "directory not found")),
        }
    }
}

/// The id of the directory that `parent_path` names, for a create or removal inside it.
pub fn parent_dir(snapshot: &FsSnapshot, parent_path: &str) -> (r: Result<String, FsError>)
    ensures
        match resolve_spec(snapshot@.nodes, parent_path@) {
            None => fails_with(r, FsErrno::NotFound, "parent not found"@),
            Some(n) => if n.kind != NodeKind::Directory {
                fails_with(r, FsErrno::NotDir, "parent is not a directory"@)
            } else {
                r matches Ok(id) && id@ == n.id
            },
        },
{
    match snapshot.resolve_path(parent_path) {
        None => Err(FsError::new(FsErrno::NotFound, "parent not found")),
        Some(parent) => {
            if parent.kind != NodeKind::Directory {
                Err(FsError::new(FsErrno::NotDir, "parent is not a directory"))
            } else {
                Ok(parent.id.clone())
            }
        },
    }
}

/// The id of the node that `path` names, for a read.
pub fn path_target(snapshot: &FsSnapshot, path: &str) -> (r: Result<String, FsError>)
    ensures
        match resolve_spec(snapshot@.nodes, path@) {
            None => fails_with(r, FsErrno::NotFound, "file not found"@),
            Some(n) => r matches Ok(id) && id@ == n.id,
        },
{
    match snapshot.resolve_path(path) {
        None => Err(FsError::new(FsErrno::NotFound, "file not found")),
        Some(node) => Ok(node.id.clone()),
    }
}

pub open spec fn names_of(s: Seq<NodeView>) -> Seq<Seq<char>> {
    s.map_values(|n: NodeView| n.name)
}

/// The names in the directory that `path` names, in order.
pub fn list_dir(snapshot: &FsSnapshot, path: &str) -> (r: Result<Vec<String>, FsError>)
    ensures
        match resolve_spec(snapshot@.nodes, path@) {
            None => fails_with(r, FsErrno::NotFound, "directory not found"@),
            Some(n) => if n.kind != NodeKind::Directory {
                fails_with(r, FsErrno::NotDir, "not a directory"@)
            } else {
                r matches Ok(names) && exists|s: Seq<NodeView>|
                    is_listing(snapshot@.nodes, n.id, s) && crate::text::string_views(names@)
                        == names_of(s)
            },
        },
{
    match snapshot.resolve_path(path) {
        None => Err(FsError::new(FsErrno::NotFound, "directory not found")),
        Some(node) => {
            if node.kind != NodeKind::Directory {
                return Err(FsError::new(FsErrno::NotDir, "not a directory"));
            }
            let children = snapshot.children_of(node.id.as_str());
            let ghost s = node_refs_view(children@);
            let mut names: Vec<String> = Vec::new();
            for i in 0..children.len()
                invariant
                    s == node_refs_view(children@),
                    names@.len() == i,
                    forall|j: int| 0 <= j < i ==> #[trigger] names@[j]@ == s[j].name,
            {
                names.push(children[i].name.clone());
            }
            assert(crate::text::string_views(names@) =~= names_of(s));
            Ok(names)
        },
    }
}

} // verus!
