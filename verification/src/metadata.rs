//! The metadata log of the filesystem and the tree that replaying it gives.
use vstd::prelude::*;
use vstd::hash_map::StringHashMap;

use crate::chunks::{FileManifest, ManifestView};
use crate::text::{contains_char, join_strs, lemma_str_lt_order, nonempty_pieces, split_nonempty, str_less, str_lt, string_views};

verus! {

/// The id of the root directory.
pub const ROOT_ID: &'static str = "root";

/// The inode number of the root directory.
pub const ROOT_INO: u64 = 1;

pub open spec fn root_id() -> Seq<char> {
    seq!['r', 'o', 'o', 't']
}

/// A fresh `String` holding [`ROOT_ID`].
pub fn root_id_string() -> (s: String)
    ensures
        s@ == root_id(),
{
    proof {
        reveal_strlit("root");
    }
    String::from_str("root")
}

#[derive(Debug, Clone, Copy, PartialEq, Eq, Structural)]
pub enum NodeKind {
    Directory,
    File,
}

/// A directory or file of the filesystem, live or removed.
#[derive(Debug, Clone)]
pub struct Node {
    pub id: String,
    pub parent: Option<String>,
    pub name: String,
    pub kind: NodeKind,
    pub mode: u16,
    pub created_ms: u64,
    pub modified_ms: u64,
    pub live: bool,
    pub manifest: Option<FileManifest>,
}

/// The mathematical value of a [`Node`].
pub struct NodeView {
    pub id: Seq<char>,
    pub parent: Option<Seq<char>>,
    pub name: Seq<char>,
    pub kind: NodeKind,
    pub mode: u16,
    pub created_ms: u64,
    pub modified_ms: u64,
    pub live: bool,
    pub manifest: Option<ManifestView>,
}

pub open spec fn opt_string_view(o: Option<String>) -> Option<Seq<char>> {
    match o {
        Some(s) => Some(s@),
        None => None,
    }
}

pub open spec fn opt_manifest_view(o: Option<FileManifest>) -> Option<ManifestView> {
    match o {
        Some(m) => Some(m@),
        None => None,
    }
}

impl View for Node {
    type V = NodeView;

    open spec fn view(&self) -> NodeView {
        NodeView {
            id: self.id@,
            parent: opt_string_view(self.parent),
            name: self.name@,
            kind: self.kind,
            mode: self.mode,
            created_ms: self.created_ms,
            modified_ms: self.modified_ms,
            live: self.live,
            manifest: opt_manifest_view(self.manifest),
        }
    }
}

pub fn copy_opt_string(o: &Option<String>) -> (r: Option<String>)
    ensures
        opt_string_view(r) == opt_string_view(*o),
{
    match o {
        Some(s) => Some(s.clone()),
        None => None,
    }
}

pub fn copy_opt_manifest(o: &Option<FileManifest>) -> (r: Option<FileManifest>)
    ensures
        opt_manifest_view(r) == opt_manifest_view(*o),
{
    match o {
        Some(m) => Some(m.copy()),
        None => None,
    }
}

impl Node {
    /// A field-by-field copy.
    pub fn copy(&self) -> (r: Node)
        ensures
            r@ == self@,
    {
        Node {
            id: self.id.clone(),
            parent: copy_opt_string(&self.parent),
            name: self.name.clone(),
            kind: self.kind,
            mode: self.mode,
            created_ms: self.created_ms,
            modified_ms: self.modified_ms,
            live: self.live,
            manifest: copy_opt_manifest(&self.manifest),
        }
    }

    /// The root directory as replay starts from it.
    fn root() -> (r: Node)
        ensures
            r@ == root_node(),
    {
        Node {
            id: root_id_string(),
            parent: None,
            name: String::new(),
            kind: NodeKind::Directory,
            mode: 0o755,
            created_ms: 0,
            modified_ms: 0,
            live: true,
            manifest: None,
        }
    }
}

pub open spec fn root_node() -> NodeView {
    NodeView {
        id: root_id(),
        parent: None,
        name: Seq::empty(),
        kind: NodeKind::Directory,
        mode: 0o755,
        created_ms: 0,
        modified_ms: 0,
        live: true,
        manifest: None,
    }
}

/// One entry of the metadata log.
#[derive(Debug, Clone)]
pub enum FsOp {
    Mkdir { op_id: String, parent: String, name: String, object: String, mode: u16, mtime_ms: u64 },
    CreateFile {
        op_id: String,
        parent: String,
        name: String,
        object: String,
        mode: u16,
        mtime_ms: u64,
    },
    CommitFile { op_id: String, object: String, manifest: FileManifest, mtime_ms: u64 },
    Unlink { op_id: String, parent: String, name: String, mtime_ms: u64 },
    Rmdir { op_id: String, parent: String, name: String, mtime_ms: u64 },
}

/// The mathematical value of an [`FsOp`].
pub enum FsOpView {
    Mkdir {
        op_id: Seq<char>,
        parent: Seq<char>,
        name: Seq<char>,
        object: Seq<char>,
        mode: u16,
        mtime_ms: u64,
    },
    CreateFile {
        op_id: Seq<char>,
        parent: Seq<char>,
        name: Seq<char>,
        object: Seq<char>,
        mode: u16,
        mtime_ms: u64,
    },
    CommitFile { op_id: Seq<char>, object: Seq<char>, manifest: ManifestView, mtime_ms: u64 },
    Unlink { op_id: Seq<char>, parent: Seq<char>, name: Seq<char>, mtime_ms: u64 },
    Rmdir { op_id: Seq<char>, parent: Seq<char>, name: Seq<char>, mtime_ms: u64 },
}

impl View for FsOp {
    type V = FsOpView;

    open spec fn view(&self) -> FsOpView {
        match self {
            FsOp::Mkdir { op_id, parent, name, object, mode, mtime_ms } => FsOpView::Mkdir {
                op_id: op_id@,
                parent: parent@,
                name: name@,
                object: object@,
                mode: *mode,
                mtime_ms: *mtime_ms,
            },
            FsOp::CreateFile { op_id, parent, name, object, mode, mtime_ms } =>
                FsOpView::CreateFile {
                op_id: op_id@,
                parent: parent@,
                name: name@,
                object: object@,
                mode: *mode,
                mtime_ms: *mtime_ms,
            },
            FsOp::CommitFile { op_id, object, manifest, mtime_ms } => FsOpView::CommitFile {
                op_id: op_id@,
                object: object@,
                manifest: manifest@,
                mtime_ms: *mtime_ms,
            },
            FsOp::Unlink { op_id, parent, name, mtime_ms } => FsOpView::Unlink {
                op_id: op_id@,
                parent: parent@,
                name: name@,
                mtime_ms: *mtime_ms,
            },
            FsOp::Rmdir { op_id, parent, name, mtime_ms } => FsOpView::Rmdir {
                op_id: op_id@,
                parent: parent@,
                name: name@,
                mtime_ms: *mtime_ms,
            },
        }
    }
}

impl FsOpView {
    pub open spec fn op_id(self) -> Seq<char> {
        match self {
            FsOpView::Mkdir { op_id, .. } => op_id,
            FsOpView::CreateFile { op_id, .. } => op_id,
            FsOpView::CommitFile { op_id, .. } => op_id,
            FsOpView::Unlink { op_id, .. } => op_id,
            FsOpView::Rmdir { op_id, .. } => op_id,
        }
    }
}

impl FsOp {
    /// The id of this log entry.
    pub fn op_id(&self) -> (r: &str)
        ensures
            r@ == self@.op_id(),
    {
        match self {
            FsOp::Mkdir { op_id, .. } => op_id.as_str(),
            FsOp::CreateFile { op_id, .. } => op_id.as_str(),
            FsOp::CommitFile { op_id, .. } => op_id.as_str(),
            FsOp::Unlink { op_id, .. } => op_id.as_str(),
            FsOp::Rmdir { op_id, .. } => op_id.as_str(),
        }
    }
}

} // verus!

verus! {

// ---------------------------------------------------------------------------
// The model: the nodes created so far, in creation order (node `i` has inode `i + 1`).
// ---------------------------------------------------------------------------

pub open spec fn nodes_view(v: Seq<Node>) -> Seq<NodeView> {
    v.map_values(|n: Node| n@)
}

pub open spec fn has_id(nodes: Seq<NodeView>, i: int, id: Seq<char>) -> bool {
    0 <= i < nodes.len() && nodes[i].id == id
}

/// The position of the node named `id`, live or not.
pub open spec fn index_of_id(nodes: Seq<NodeView>, id: Seq<char>) -> Option<int> {
    if exists|i: int| has_id(nodes, i, id) {
        Some(choose|i: int| has_id(nodes, i, id))
    } else {
        None
    }
}

pub open spec fn is_live_child(nodes: Seq<NodeView>, i: int, parent: Seq<char>, name: Seq<char>) -> bool {
    &&& 0 <= i < nodes.len()
    &&& nodes[i].live
    &&& nodes[i].parent == Some(parent)
    &&& nodes[i].name == name
}

/// The position of the live entry `name` of directory `parent`.
pub open spec fn index_of_child(nodes: Seq<NodeView>, parent: Seq<char>, name: Seq<char>) -> Option<
    int,
> {
    if exists|i: int| is_live_child(nodes, i, parent, name) {
        Some(choose|i: int| is_live_child(nodes, i, parent, name))
    } else {
        None
    }
}

pub open spec fn has_live_children(nodes: Seq<NodeView>, id: Seq<char>) -> bool {
    exists|i: int| 0 <= i < nodes.len() && nodes[i].live && nodes[i].parent == Some(id)
}

/// The live node named `id`.
pub open spec fn live_node(nodes: Seq<NodeView>, id: Seq<char>) -> Option<NodeView> {
    match index_of_id(nodes, id) {
        Some(i) => if nodes[i].live {
            Some(nodes[i])
        } else {
            None
        },
        None => None,
    }
}

pub open spec fn is_live_dir(nodes: Seq<NodeView>, id: Seq<char>) -> bool {
    match live_node(nodes, id) {
        Some(n) => n.kind == NodeKind::Directory,
        None => false,
    }
}

/// The live entry `name` of `parent`.
pub open spec fn child_node(nodes: Seq<NodeView>, parent: Seq<char>, name: Seq<char>) -> Option<
    NodeView,
> {
    match index_of_child(nodes, parent, name) {
        Some(i) => Some(nodes[i]),
        None => None,
    }
}

/// The nodes after a create, or `None` where the create is refused.
pub open spec fn create_spec(
    nodes: Seq<NodeView>,
    parent: Seq<char>,
    name: Seq<char>,
    object: Seq<char>,
    kind: NodeKind,
    mode: u16,
    mtime_ms: u64,
) -> Option<Seq<NodeView>> {
    if name.len() == 0 || name.contains('/') || object == root_id() {
        None
    } else if index_of_id(nodes, object) is Some {
        None
    } else if !is_live_dir(nodes, parent) {
        None
    } else if index_of_child(nodes, parent, name) is Some {
        None
    } else {
        Some(
            nodes.push(
                NodeView {
                    id: object,
                    parent: Some(parent),
                    name,
                    kind,
                    mode,
                    created_ms: mtime_ms,
                    modified_ms: mtime_ms,
                    live: true,
                    manifest: None,
                },
            ),
        )
    }
}

/// The nodes after one log entry, or `None` where the entry has no effect.
pub open spec fn apply_spec(nodes: Seq<NodeView>, op: FsOpView) -> Option<Seq<NodeView>> {
    match op {
        FsOpView::Mkdir { parent, name, object, mode, mtime_ms, .. } => create_spec(
            nodes,
            parent,
            name,
            object,
            NodeKind::Directory,
            mode,
            mtime_ms,
        ),
        FsOpView::CreateFile { parent, name, object, mode, mtime_ms, .. } => create_spec(
            nodes,
            parent,
            name,
            object,
            NodeKind::File,
            mode,
            mtime_ms,
        ),
        FsOpView::CommitFile { object, manifest, mtime_ms, .. } => match index_of_id(
            nodes,
            object,
        ) {
            Some(i) => if nodes[i].live && nodes[i].kind == NodeKind::File {
                Some(
                    nodes.update(
                        i,
                        NodeView { manifest: Some(manifest), modified_ms: mtime_ms, ..nodes[i] },
                    ),
                )
            } else {
                None
            },
            None => None,
        },
        FsOpView::Unlink { parent, name, mtime_ms, .. } => match index_of_child(
            nodes,
            parent,
            name,
        ) {
            Some(i) => if nodes[i].kind == NodeKind::File {
                Some(nodes.update(i, NodeView { live: false, modified_ms: mtime_ms, ..nodes[i] }))
            } else {
                None
            },
            None => None,
        },
        FsOpView::Rmdir { parent, name, mtime_ms, .. } => match index_of_child(
            nodes,
            parent,
            name,
        ) {
            Some(i) => if nodes[i].kind == NodeKind::Directory && !has_live_children(
                nodes,
                nodes[i].id,
            ) {
                Some(nodes.update(i, NodeView { live: false, modified_ms: mtime_ms, ..nodes[i] }))
            } else {
                None
            },
            None => None,
        },
    }
}

/// What replaying a log leaves: the nodes, and for each entry in order its id and whether
/// it took effect.
pub struct FsModel {
    pub nodes: Seq<NodeView>,
    pub effects: Seq<(Seq<char>, bool)>,
}

pub open spec fn replay_spec(ops: Seq<FsOpView>) -> FsModel
    decreases ops.len(),
{
    if ops.len() == 0 {
        FsModel { nodes: seq![root_node()], effects: Seq::empty() }
    } else {
        let prev = replay_spec(ops.drop_last());
        let op = ops.last();
        match apply_spec(prev.nodes, op) {
            Some(nodes) => FsModel { nodes, effects: prev.effects.push((op.op_id(), true)) },
            None => FsModel { nodes: prev.nodes, effects: prev.effects.push((op.op_id(), false)) },
        }
    }
}

/// Whether the last log entry with id `op_id` took effect (`false` where there is none).
pub open spec fn last_effect(effects: Seq<(Seq<char>, bool)>, op_id: Seq<char>) -> bool
    decreases effects.len(),
{
    if effects.len() == 0 {
        false
    } else if effects.last().0 == op_id {
        effects.last().1
    } else {
        last_effect(effects.drop_last(), op_id)
    }
}

/// The well-formedness of the node list: the root first and unchanged, ids unique, no two
/// live entries of one directory under one name, and every live node below a live
/// directory.
pub open spec fn nodes_wf(nodes: Seq<NodeView>) -> bool {
    &&& nodes.len() >= 1
    &&& nodes[0] == root_node()
    &&& forall|i: int, j: int|
        0 <= i < nodes.len() && 0 <= j < nodes.len() && i != j ==> nodes[i].id != nodes[j].id
    &&& forall|i: int| 0 < i < nodes.len() ==> (#[trigger] nodes[i]).parent is Some
    &&& forall|i: int, j: int|
        #![trigger nodes[i], nodes[j]]
        0 <= i < nodes.len() && 0 <= j < nodes.len() && i != j && nodes[i].live && nodes[j].live
            && nodes[i].parent is Some && nodes[i].parent == nodes[j].parent ==> nodes[i].name
            != nodes[j].name
    &&& forall|i: int|
        0 < i < nodes.len() && (#[trigger] nodes[i]).live ==> is_live_dir(
            nodes,
            nodes[i].parent->0,
        )
}

} // verus!

verus! {

pub open spec fn ids_unique(nodes: Seq<NodeView>) -> bool {
    forall|i: int, j: int|
        0 <= i < nodes.len() && 0 <= j < nodes.len() && i != j ==> nodes[i].id != nodes[j].id
}

pub open spec fn children_unique(nodes: Seq<NodeView>) -> bool {
    forall|i: int, j: int|
        #![trigger nodes[i], nodes[j]]
        0 <= i < nodes.len() && 0 <= j < nodes.len() && i != j && nodes[i].live && nodes[j].live
            && nodes[i].parent is Some && nodes[i].parent == nodes[j].parent ==> nodes[i].name
            != nodes[j].name
}

pub proof fn lemma_index_of_id(nodes: Seq<NodeView>, id: Seq<char>, k: int)
    requires
        ids_unique(nodes),
        has_id(nodes, k, id),
    ensures
        index_of_id(nodes, id) == Some(k),
{
    let j = choose|i: int| has_id(nodes, i, id);
    assert(has_id(nodes, j, id));
}

pub proof fn lemma_index_of_id_some(nodes: Seq<NodeView>, id: Seq<char>)
    requires
        index_of_id(nodes, id) is Some,
    ensures
        has_id(nodes, index_of_id(nodes, id)->0, id),
{
}

pub proof fn lemma_index_of_child(nodes: Seq<NodeView>, parent: Seq<char>, name: Seq<char>, k: int)
    requires
        children_unique(nodes),
        is_live_child(nodes, k, parent, name),
    ensures
        index_of_child(nodes, parent, name) == Some(k),
{
    let j = choose|i: int| is_live_child(nodes, i, parent, name);
    assert(is_live_child(nodes, j, parent, name));
    if j != k {
        assert(nodes[j].name != nodes[k].name);
    }
}

/// Where the node named `id` keeps its position and liveness, whether it is a live
/// directory does not change.
proof fn lemma_live_dir_same(a: Seq<NodeView>, b: Seq<NodeView>, id: Seq<char>, k: int)
    requires
        ids_unique(a),
        ids_unique(b),
        has_id(a, k, id),
        has_id(b, k, id),
        a[k].live == b[k].live,
        a[k].kind == b[k].kind,
    ensures
        is_live_dir(a, id) == is_live_dir(b, id),
{
    lemma_index_of_id(a, id, k);
    lemma_index_of_id(b, id, k);
}

/// Every log entry that takes effect keeps the node list well formed: the root stays,
/// ids stay unique, a directory never holds two live entries of one name, and every live
/// node stays inside a live directory (so a directory with live entries is never removed).
pub proof fn lemma_apply_preserves_wf(nodes: Seq<NodeView>, op: FsOpView)
    requires
        nodes_wf(nodes),
        apply_spec(nodes, op) is Some,
    ensures
        nodes_wf(apply_spec(nodes, op)->0),
{
    let n2 = apply_spec(nodes, op)->0;
    assert(ids_unique(nodes));
    assert(children_unique(nodes));
    match op {
        FsOpView::Mkdir { parent, name, object, mode, mtime_ms, .. } => {
            lemma_create_preserves_wf(nodes, parent, name, object, NodeKind::Directory, mode, mtime_ms);
        },
        FsOpView::CreateFile { parent, name, object, mode, mtime_ms, .. } => {
            lemma_create_preserves_wf(nodes, parent, name, object, NodeKind::File, mode, mtime_ms);
        },
        FsOpView::CommitFile { object, manifest, mtime_ms, .. } => {
            let i = index_of_id(nodes, object)->0;
            lemma_index_of_id_some(nodes, object);
            assert(i != 0);
            assert(ids_unique(n2));
            assert forall|j: int| 0 < j < n2.len() && (#[trigger] n2[j]).live implies is_live_dir(
                n2,
                n2[j].parent->0,
            ) by {
                let p = nodes[j].parent->0;
                assert(is_live_dir(nodes, p));
                let k = index_of_id(nodes, p)->0;
                lemma_index_of_id_some(nodes, p);
                lemma_live_dir_same(nodes, n2, p, k);
            }
        },
        FsOpView::Unlink { parent, name, mtime_ms, .. } => {
            let i = index_of_child(nodes, parent, name)->0;
            lemma_removal_preserves_wf(nodes, i, mtime_ms);
        },
        FsOpView::Rmdir { parent, name, mtime_ms, .. } => {
            let i = index_of_child(nodes, parent, name)->0;
            lemma_removal_preserves_wf(nodes, i, mtime_ms);
        },
    }
}

proof fn lemma_removal_preserves_wf(nodes: Seq<NodeView>, i: int, mtime_ms: u64)
    requires
        nodes_wf(nodes),
        0 < i < nodes.len(),
        nodes[i].live,
        nodes[i].kind == NodeKind::File || !has_live_children(nodes, nodes[i].id),
    ensures
        nodes_wf(nodes.update(i, NodeView { live: false, modified_ms: mtime_ms, ..nodes[i] })),
{
    let n2 = nodes.update(i, NodeView { live: false, modified_ms: mtime_ms, ..nodes[i] });
    assert(ids_unique(nodes));
    assert(ids_unique(n2));
    assert forall|j: int| 0 < j < n2.len() && (#[trigger] n2[j]).live implies is_live_dir(
        n2,
        n2[j].parent->0,
    ) by {
        let p = nodes[j].parent->0;
        assert(is_live_dir(nodes, p));
        let k = index_of_id(nodes, p)->0;
        lemma_index_of_id_some(nodes, p);
        if k == i {
            if nodes[i].kind == NodeKind::File {
                assert(false);
            } else {
                assert(has_live_children(nodes, nodes[i].id));
            }
        }
        lemma_live_dir_same(nodes, n2, p, k);
    }
}

proof fn lemma_create_preserves_wf(
    nodes: Seq<NodeView>,
    parent: Seq<char>,
    name: Seq<char>,
    object: Seq<char>,
    kind: NodeKind,
    mode: u16,
    mtime_ms: u64,
)
    requires
        nodes_wf(nodes),
        create_spec(nodes, parent, name, object, kind, mode, mtime_ms) is Some,
    ensures
        nodes_wf(create_spec(nodes, parent, name, object, kind, mode, mtime_ms)->0),
{
    let n2 = create_spec(nodes, parent, name, object, kind, mode, mtime_ms)->0;
    let last = n2.len() - 1;
    assert(ids_unique(nodes));
    assert forall|j: int| 0 <= j < nodes.len() implies nodes[j].id != object by {
        if nodes[j].id == object {
            assert(has_id(nodes, j, object));
        }
    }
    assert(ids_unique(n2));
    assert forall|a: int, b: int|
        #![trigger n2[a], n2[b]]
        0 <= a < n2.len() && 0 <= b < n2.len() && a != b && n2[a].live && n2[b].live
            && n2[a].parent is Some && n2[a].parent == n2[b].parent implies n2[a].name
        != n2[b].name by {
        if a == last {
            if n2[b].name == name {
                assert(is_live_child(nodes, b, parent, name));
            }
        } else if b == last {
            if n2[a].name == name {
                assert(is_live_child(nodes, a, parent, name));
            }
        } else {
            assert(nodes[a] == n2[a] && nodes[b] == n2[b]);
        }
    }
    let pk = index_of_id(nodes, parent)->0;
    lemma_index_of_id_some(nodes, parent);
    assert forall|j: int| 0 < j < n2.len() && (#[trigger] n2[j]).live implies is_live_dir(
        n2,
        n2[j].parent->0,
    ) by {
        if j == last {
            lemma_live_dir_same(nodes, n2, parent, pk);
        } else {
            let p = nodes[j].parent->0;
            assert(nodes[j] == n2[j]);
            assert(is_live_dir(nodes, p));
            let k = index_of_id(nodes, p)->0;
            lemma_index_of_id_some(nodes, p);
            lemma_live_dir_same(nodes, n2, p, k);
        }
    }
}

} // verus!

verus! {

/// `ids` maps the id of every node to its position, and holds nothing else.
pub open spec fn id_index_ok(nodes: Seq<NodeView>, ids: Map<Seq<char>, usize>) -> bool {
    &&& forall|i: int| 0 <= i < nodes.len() ==> ids.contains_key(#[trigger] nodes[i].id) && ids[nodes[i].id] == i
    &&& forall|k: Seq<char>| #[trigger] ids.contains_key(k) ==> (ids[k] as int) < nodes.len() && nodes[ids[k] as int].id == k
}

fn find_id(nodes: &Vec<Node>, ids: &StringHashMap<usize>, id: &String) -> (r: Option<usize>)
    requires
        ids_unique(nodes_view(nodes@)),
        id_index_ok(nodes_view(nodes@), ids@),
    ensures
        match r {
            Some(i) => index_of_id(nodes_view(nodes@), id@) == Some(i as int) && i < nodes@.len(),
            None => index_of_id(nodes_view(nodes@), id@) is None,
        },
{
    let ghost v = nodes_view(nodes@);
    match ids.get(id.as_str()) {
        Some(i) => {
            proof {
                lemma_index_of_id(v, id@, *i as int);
            }
            Some(*i)
        },
        None => {
            assert(!exists|j: int| has_id(v, j, id@));
            None
        },
    }
}

/// The key under which the live entry `name` of directory `parent` is indexed.
pub open spec fn child_key(parent: Seq<char>, name: Seq<char>) -> Seq<char> {
    parent + seq!['/'] + name
}

/// No entry name holds a `/`.
pub open spec fn names_ok(nodes: Seq<NodeView>) -> bool {
    forall|i: int| 0 <= i < nodes.len() && (#[trigger] nodes[i]).parent is Some ==> !nodes[i].name.contains('/')
}

/// `children` maps the key of every live entry to its position, and holds nothing else.
pub open spec fn child_index_ok(nodes: Seq<NodeView>, children: Map<Seq<char>, usize>) -> bool {
    &&& forall|i: int|
        0 <= i < nodes.len() && (#[trigger] nodes[i]).live && nodes[i].parent is Some ==> children.contains_key(
            child_key(nodes[i].parent->0, nodes[i].name),
        ) && children[child_key(nodes[i].parent->0, nodes[i].name)] == i
    &&& forall|k: Seq<char>|
        #[trigger] children.contains_key(k) ==> (children[k] as int) < nodes.len() && nodes[children[k] as int].live
            && nodes[children[k] as int].parent is Some && child_key(
            nodes[children[k] as int].parent->0,
            nodes[children[k] as int].name,
        ) == k
}

proof fn lemma_child_key_injective(p1: Seq<char>, n1: Seq<char>, p2: Seq<char>, n2: Seq<char>)
    requires
        !n1.contains('/'),
        !n2.contains('/'),
        child_key(p1, n1) == child_key(p2, n2),
    ensures
        p1 == p2,
        n1 == n2,
{
    let a1 = p1 + seq!['/'];
    let a2 = p2 + seq!['/'];
    let k = a1 + n1;
    assert(k == a2 + n2);
    assert(a1[p1.len() as int] == '/');
    assert(a2[p2.len() as int] == '/');
    if n1.len() < n2.len() {
        let w = n2.len() - n1.len() - 1;
        assert(k[p1.len() as int] == a1[p1.len() as int]);
        assert((a2 + n2)[a2.len() + w] == n2[w]);
        assert(a2.len() + w == p1.len());
        assert(n2[w] == '/');
        assert(n2.contains('/'));
    } else if n2.len() < n1.len() {
        let w = n1.len() - n2.len() - 1;
        assert((a2 + n2)[p2.len() as int] == a2[p2.len() as int]);
        assert(k[a1.len() + w] == n1[w]);
        assert(a1.len() + w == p2.len());
        assert(n1[w] == '/');
        assert(n1.contains('/'));
    } else {
        assert(a1.len() == a2.len());
        assert forall|i: int| 0 <= i < p1.len() implies p1[i] == p2[i] by {
            assert(k[i] == a1[i]);
            assert((a2 + n2)[i] == a2[i]);
        }
        assert forall|i: int| 0 <= i < n1.len() implies n1[i] == n2[i] by {
            assert(k[a1.len() + i] == n1[i]);
            assert((a2 + n2)[a2.len() + i] == n2[i]);
        }
        assert(p1 =~= p2);
        assert(n1 =~= n2);
    }
}

proof fn lemma_child_index_push(
    v: Seq<NodeView>,
    children: Map<Seq<char>, usize>,
    node: NodeView,
)
    requires
        child_index_ok(v, children),
        names_ok(v),
        node.live,
        node.parent is Some,
        !node.name.contains('/'),
        index_of_child(v, node.parent->0, node.name) is None,
        v.len() <= usize::MAX,
    ensures
        child_index_ok(
            v.push(node),
            children.insert(child_key(node.parent->0, node.name), v.len() as usize),
        ),
        names_ok(v.push(node)),
{
    let n2 = v.push(node);
    let key = child_key(node.parent->0, node.name);
    let c2 = children.insert(key, v.len() as usize);
    assert forall|i: int|
        0 <= i < n2.len() && (#[trigger] n2[i]).live && n2[i].parent is Some implies c2.contains_key(
            child_key(n2[i].parent->0, n2[i].name),
        ) && c2[child_key(n2[i].parent->0, n2[i].name)] == i by {
        if i < v.len() {
            assert(n2[i] == v[i]);
            if child_key(v[i].parent->0, v[i].name) == key {
                lemma_child_key_injective(v[i].parent->0, v[i].name, node.parent->0, node.name);
                assert(is_live_child(v, i, node.parent->0, node.name));
            }
        }
    }
    assert forall|k: Seq<char>| #[trigger] c2.contains_key(k) implies (c2[k] as int) < n2.len() && n2[c2[k] as int].live
        && n2[c2[k] as int].parent is Some && child_key(n2[c2[k] as int].parent->0, n2[c2[k] as int].name) == k by {
        if k != key {
            assert(children.contains_key(k));
            assert(n2[children[k] as int] == v[children[k] as int]);
        }
    }
    assert forall|i: int| 0 <= i < n2.len() && (#[trigger] n2[i]).parent is Some implies !n2[i].name.contains('/') by {
        if i < v.len() {
            assert(n2[i] == v[i]);
        }
    }
}

proof fn lemma_child_index_update(
    v: Seq<NodeView>,
    children: Map<Seq<char>, usize>,
    i: int,
    node: NodeView,
)
    requires
        child_index_ok(v, children),
        names_ok(v),
        children_unique(v),
        0 <= i < v.len(),
        node.parent == v[i].parent,
        node.name == v[i].name,
        node.live == v[i].live || (v[i].live && !node.live && v[i].parent is Some),
    ensures
        names_ok(v.update(i, node)),
        node.live == v[i].live ==> child_index_ok(v.update(i, node), children),
        node.live != v[i].live ==> child_index_ok(
            v.update(i, node),
            children.remove(child_key(v[i].parent->0, v[i].name)),
        ),
{
    let n2 = v.update(i, node);
    assert forall|j: int| 0 <= j < n2.len() && (#[trigger] n2[j]).parent is Some implies !n2[j].name.contains('/') by {
        assert(v[j].parent is Some);
    }
    if node.live == v[i].live {
        assert forall|j: int|
            0 <= j < n2.len() && (#[trigger] n2[j]).live && n2[j].parent is Some implies children.contains_key(
                child_key(n2[j].parent->0, n2[j].name),
            ) && children[child_key(n2[j].parent->0, n2[j].name)] == j by {
            assert(v[j].live && v[j].parent is Some);
        }
        assert forall|k: Seq<char>| #[trigger] children.contains_key(k) implies (children[k] as int) < n2.len()
            && n2[children[k] as int].live && n2[children[k] as int].parent is Some && child_key(
            n2[children[k] as int].parent->0,
            n2[children[k] as int].name,
        ) == k by {
            assert(v[children[k] as int].live);
        }
    } else {
        let key = child_key(v[i].parent->0, v[i].name);
        let c2 = children.remove(key);
        assert forall|j: int|
            0 <= j < n2.len() && (#[trigger] n2[j]).live && n2[j].parent is Some implies c2.contains_key(
                child_key(n2[j].parent->0, n2[j].name),
            ) && c2[child_key(n2[j].parent->0, n2[j].name)] == j by {
            assert(j != i);
            assert(n2[j] == v[j]);
            if child_key(v[j].parent->0, v[j].name) == key {
                lemma_child_key_injective(v[j].parent->0, v[j].name, v[i].parent->0, v[i].name);
                assert(v[j].name == v[i].name);
            }
        }
        assert forall|k: Seq<char>| #[trigger] c2.contains_key(k) implies (c2[k] as int) < n2.len() && n2[c2[k] as int].live
            && n2[c2[k] as int].parent is Some && child_key(n2[c2[k] as int].parent->0, n2[c2[k] as int].name) == k by {
            assert(children.contains_key(k));
            let idx = children[k] as int;
            if idx == i {
                assert(child_key(v[i].parent->0, v[i].name) == k);
            }
            assert(n2[idx] == v[idx]);
        }
    }
}

fn find_child(nodes: &Vec<Node>, children: &StringHashMap<usize>, parent: &String, name: &String) -> (r: Option<usize>)
    requires
        children_unique(nodes_view(nodes@)),
        child_index_ok(nodes_view(nodes@), children@),
    ensures
        match r {
            Some(i) => index_of_child(nodes_view(nodes@), parent@, name@) == Some(i as int) && i
                < nodes@.len(),
            None => index_of_child(nodes_view(nodes@), parent@, name@) is None,
        },
{
    let ghost v = nodes_view(nodes@);
    proof {
        reveal_strlit("/");
    }
    let key = join_strs(join_strs(parent.as_str(), "/").as_str(), name.as_str());
    assert(key@ == child_key(parent@, name@));
    match children.get(key.as_str()) {
        Some(i) => {
            let i = *i;
            let n = &nodes[i];
            let same = match &n.parent {
                Some(p) => *p == *parent && n.name == *name,
                None => false,
            };
            if same {
                proof {
                    lemma_index_of_child(v, parent@, name@, i as int);
                }
                Some(i)
            } else {
                proof {
                    if exists|j: int| is_live_child(v, j, parent@, name@) {
                        let j = choose|j: int| is_live_child(v, j, parent@, name@);
                        assert(v[j].live && v[j].parent is Some);
                        assert(children@[child_key(parent@, name@)] == j);
                    }
                }
                None
            }
        },
        None => {
            proof {
                if exists|j: int| is_live_child(v, j, parent@, name@) {
                    let j = choose|j: int| is_live_child(v, j, parent@, name@);
                    assert(v[j].live && v[j].parent is Some);
                }
            }
            None
        },
    }
}

fn find_live_child_of(nodes: &Vec<Node>, id: &String) -> (r: bool)
    ensures
        r == has_live_children(nodes_view(nodes@), id@),
{
    let ghost v = nodes_view(nodes@);
    let mut i: usize = 0;
    while i < nodes.len()
        invariant
            v == nodes_view(nodes@),
            i <= nodes@.len(),
            forall|j: int| 0 <= j < i ==> !(v[j].live && v[j].parent == Some(id@)),
        decreases nodes@.len() - i,
    {
        let n = &nodes[i];
        if n.live {
            match &n.parent {
                Some(p) => {
                    if *p == *id {
                        assert(v[i as int].live && v[i as int].parent == Some(id@));
                        return true;
                    }
                },
                None => {},
            }
        }
        i = i + 1;
    }
    false
}

/// Sets the node at `i` to `node`.
fn replace_node(nodes: &mut Vec<Node>, i: usize, node: Node)
    requires
        i < old(nodes)@.len(),
    ensures
        nodes_view(final(nodes)@) == nodes_view(old(nodes)@).update(i as int, node@),
{
    let ghost n = node@;
    nodes.set(i, node);
    assert(nodes_view(nodes@) =~= nodes_view(old(nodes)@).update(i as int, n));
}

/// The node at `i` marked removed at time `mtime_ms`.
fn removed_copy(n: &Node, mtime_ms: u64) -> (r: Node)
    ensures
        r@ == (NodeView { live: false, modified_ms: mtime_ms, ..n@ }),
{
    Node {
        id: n.id.clone(),
        parent: copy_opt_string(&n.parent),
        name: n.name.clone(),
        kind: n.kind,
        mode: n.mode,
        created_ms: n.created_ms,
        modified_ms: mtime_ms,
        live: false,
        manifest: copy_opt_manifest(&n.manifest),
    }
}

} // verus!

verus! {

/// The snapshot of the filesystem that a metadata log leaves: the nodes in creation order
/// (the position of a node gives its inode number), an index from node id to position, an
/// index from `parent/name` to the position of each live entry, and each log entry's
/// effect.
pub struct FsSnapshot {
    nodes: Vec<Node>,
    ids: StringHashMap<usize>,
    children: StringHashMap<usize>,
    effects: Vec<(String, bool)>,
}

pub open spec fn effects_view(v: Seq<(String, bool)>) -> Seq<(Seq<char>, bool)> {
    v.map_values(|p: (String, bool)| (p.0@, p.1))
}

impl View for FsSnapshot {
    type V = FsModel;

    closed spec fn view(&self) -> FsModel {
        FsModel { nodes: nodes_view(self.nodes@), effects: effects_view(self.effects@) }
    }
}

impl FsSnapshot {
    #[verifier::type_invariant]
    spec fn well_formed(&self) -> bool {
        &&& nodes_wf(nodes_view(self.nodes@))
        &&& id_index_ok(nodes_view(self.nodes@), self.ids@)
        &&& child_index_ok(nodes_view(self.nodes@), self.children@)
    }

    fn create_node(
        nodes: &mut Vec<Node>,
        ids: &mut StringHashMap<usize>,
        children: &mut StringHashMap<usize>,
        parent: &String,
        name: &String,
        object: &String,
        kind: NodeKind,
        mode: u16,
        mtime_ms: u64,
    ) -> (r: bool)
        requires
            nodes_wf(nodes_view(old(nodes)@)),
            id_index_ok(nodes_view(old(nodes)@), old(ids)@),
            names_ok(nodes_view(old(nodes)@)),
            child_index_ok(nodes_view(old(nodes)@), old(children)@),
        ensures
            id_index_ok(nodes_view(final(nodes)@), final(ids)@),
            names_ok(nodes_view(final(nodes)@)),
            child_index_ok(nodes_view(final(nodes)@), final(children)@),
            match create_spec(
                nodes_view(old(nodes)@),
                parent@,
                name@,
                object@,
                kind,
                mode,
                mtime_ms,
            ) {
                Some(n) => r && nodes_view(final(nodes)@) == n,
                None => !r && final(nodes)@ == old(nodes)@,
            },
    {
        let ghost v = nodes_view(nodes@);
        if name.as_str().is_empty() || contains_char(name.as_str(), '/') || *object == root_id_string() {
            return false;
        }
        if find_id(nodes, ids, object).is_some() {
            return false;
        }
        match find_id(nodes, ids, parent) {
            Some(p) => {
                if !(nodes[p].live && nodes[p].kind == NodeKind::Directory) {
                    return false;
                }
            },
            None => {
                return false;
            },
        }
        if find_child(nodes, children, parent, name).is_some() {
            return false;
        }
        let node = Node {
            id: object.clone(),
            parent: Some(parent.clone()),
            name: name.clone(),
            kind,
            mode,
            created_ms: mtime_ms,
            modified_ms: mtime_ms,
            live: true,
            manifest: None,
        };
        let ghost nv = node@;
        let position = nodes.len();
        nodes.push(node);
        let ghost old_ids = ids@;
        ids.insert(object.clone(), position);
        proof {
            reveal_strlit("/");
            lemma_child_index_push(v, children@, nv);
        }
        let key = join_strs(join_strs(parent.as_str(), "/").as_str(), name.as_str());
        assert(key@ =~= child_key(parent@, name@));
        children.insert(key, position);
        assert(nodes_view(nodes@) =~= v.push(nv));
        proof {
            let n2 = nodes_view(nodes@);
            assert(!exists|j: int| has_id(v, j, object@));
            assert forall|i: int| 0 <= i < n2.len() implies ids@.contains_key(#[trigger] n2[i].id) && ids@[n2[i].id]
                == i by {
                if i < v.len() {
                    assert(n2[i] == v[i]);
                    assert(v[i].id != object@) by {
                        if v[i].id == object@ {
                            assert(has_id(v, i, object@));
                        }
                    }
                    assert(old_ids.contains_key(v[i].id));
                }
            }
            assert forall|k: Seq<char>| #[trigger] ids@.contains_key(k) implies (ids@[k] as int) < n2.len()
                && n2[ids@[k] as int].id == k by {
                if k != object@ {
                    assert(old_ids.contains_key(k));
                    assert(n2[old_ids[k] as int] == v[old_ids[k] as int]);
                }
            }
        }
        true
    }

    #[verifier::rlimit(60)]
    fn apply(
        nodes: &mut Vec<Node>,
        ids: &mut StringHashMap<usize>,
        children: &mut StringHashMap<usize>,
        op: &FsOp,
    ) -> (r: bool)
        requires
            nodes_wf(nodes_view(old(nodes)@)),
            id_index_ok(nodes_view(old(nodes)@), old(ids)@),
            names_ok(nodes_view(old(nodes)@)),
            child_index_ok(nodes_view(old(nodes)@), old(children)@),
        ensures
            id_index_ok(nodes_view(final(nodes)@), final(ids)@),
            names_ok(nodes_view(final(nodes)@)),
            child_index_ok(nodes_view(final(nodes)@), final(children)@),
            match apply_spec(nodes_view(old(nodes)@), op@) {
                Some(n) => r && nodes_view(final(nodes)@) == n,
                None => !r && final(nodes)@ == old(nodes)@,
            },
    {
        let ghost v = nodes_view(nodes@);
        match op {
            FsOp::Mkdir { parent, name, object, mode, mtime_ms, .. } => Self::create_node(
                nodes,
                ids,
                children,
                parent,
                name,
                object,
                NodeKind::Directory,
                *mode,
                *mtime_ms,
            ),
            FsOp::CreateFile { parent, name, object, mode, mtime_ms, .. } => Self::create_node(
                nodes,
                ids,
                children,
                parent,
                name,
                object,
                NodeKind::File,
                *mode,
                *mtime_ms,
            ),
            FsOp::CommitFile { object, manifest, mtime_ms, .. } => {
                match find_id(nodes, ids, object) {
                    Some(i) => {
                        if nodes[i].live && nodes[i].kind == NodeKind::File {
                            let n = &nodes[i];
                            let updated = Node {
                                id: n.id.clone(),
                                parent: copy_opt_string(&n.parent),
                                name: n.name.clone(),
                                kind: n.kind,
                                mode: n.mode,
                                created_ms: n.created_ms,
                                modified_ms: *mtime_ms,
                                live: n.live,
                                manifest: Some(manifest.copy()),
                            };
                            proof {
                                lemma_child_index_update(v, children@, i as int, updated@);
                            }
                            replace_node(nodes, i, updated);
                            true
                        } else {
                            false
                        }
                    },
                    None => false,
                }
            },
            FsOp::Unlink { parent, name, mtime_ms, .. } => {
                match find_child(nodes, children, parent, name) {
                    Some(i) => {
                        if nodes[i].kind != NodeKind::File {
                            return false;
                        }
                        let updated = removed_copy(&nodes[i], *mtime_ms);
                        proof {
                            assert(is_live_child(v, i as int, parent@, name@));
                            lemma_child_index_update(v, children@, i as int, updated@);
                            reveal_strlit("/");
                        }
                        replace_node(nodes, i, updated);
                        let key = join_strs(join_strs(parent.as_str(), "/").as_str(), name.as_str());
                        assert(key@ =~= child_key(parent@, name@));
                        children.remove(key.as_str());
                        true
                    },
                    None => false,
                }
            },
            FsOp::Rmdir { parent, name, mtime_ms, .. } => {
                match find_child(nodes, children, parent, name) {
                    Some(i) => {
                        if nodes[i].kind != NodeKind::Directory {
                            return false;
                        }
                        if find_live_child_of(nodes, &nodes[i].id) {
                            return false;
                        }
                        let updated = removed_copy(&nodes[i], *mtime_ms);
                        proof {
                            assert(is_live_child(v, i as int, parent@, name@));
                            lemma_child_index_update(v, children@, i as int, updated@);
                            reveal_strlit("/");
                        }
                        replace_node(nodes, i, updated);
                        let key = join_strs(join_strs(parent.as_str(), "/").as_str(), name.as_str());
                        assert(key@ =~= child_key(parent@, name@));
                        children.remove(key.as_str());
                        true
                    },
                    None => false,
                }
            },
        }
    }

    /// Replays a metadata log from the empty filesystem, in log order.
    pub fn replay(ops: &[FsOp]) -> (r: Self)
        ensures
            r@ == replay_spec(ops@.map_values(|op: FsOp| op@)),
    {
        let ghost opv = ops@.map_values(|op: FsOp| op@);
        let mut nodes: Vec<Node> = Vec::new();
        nodes.push(Node::root());
        let mut ids: StringHashMap<usize> = StringHashMap::new();
        ids.insert(root_id_string(), 0);
        let mut children: StringHashMap<usize> = StringHashMap::new();
        let mut effects: Vec<(String, bool)> = Vec::new();
        assert(opv.take(0) =~= Seq::<FsOpView>::empty());
        assert(nodes_view(nodes@) =~= seq![root_node()]);
        for i in 0..ops.len()
            invariant
                opv == ops@.map_values(|op: FsOp| op@),
                nodes_view(nodes@) == replay_spec(opv.take(i as int)).nodes,
                effects_view(effects@) == replay_spec(opv.take(i as int)).effects,
                nodes_wf(nodes_view(nodes@)),
                id_index_ok(nodes_view(nodes@), ids@),
                names_ok(nodes_view(nodes@)),
                child_index_ok(nodes_view(nodes@), children@),
        {
            let op = &ops[i];
            let ghost before = nodes_view(nodes@);
            let ghost eff_before = effects_view(effects@);
            assert(opv.take(i + 1).drop_last() =~= opv.take(i as int));
            assert(opv.take(i + 1).last() == op@);
            let effective = Self::apply(&mut nodes, &mut ids, &mut children, op);
            proof {
                if effective {
                    lemma_apply_preserves_wf(before, op@);
                }
            }
            let id = String::from_str(op.op_id());
            effects.push((id, effective));
            assert(effects_view(effects@) =~= eff_before.push((op@.op_id(), effective)));
        }
        assert(opv.take(ops@.len() as int) =~= opv);
        FsSnapshot { nodes, ids, children, effects }
    }
}

} // verus!

verus! {

pub open spec fn node_ref_view(r: Option<&Node>) -> Option<NodeView> {
    match r {
        Some(n) => Some(n@),
        None => None,
    }
}

pub open spec fn str_ref_view(r: Option<&str>) -> Option<Seq<char>> {
    match r {
        Some(s) => Some(s@),
        None => None,
    }
}

/// The live node with inode number `ino`.
pub open spec fn node_at_ino(nodes: Seq<NodeView>, ino: u64) -> Option<NodeView> {
    if 1 <= ino <= nodes.len() && nodes[ino - 1].live {
        Some(nodes[ino - 1])
    } else {
        None
    }
}

pub open spec fn view_id(n: Option<NodeView>) -> Option<Seq<char>> {
    match n {
        Some(n) => Some(n.id),
        None => None,
    }
}

/// The number of live nodes among `nodes`.
pub open spec fn live_count(nodes: Seq<NodeView>) -> nat
    decreases nodes.len(),
{
    if nodes.len() == 0 {
        0
    } else {
        live_count(nodes.drop_last()) + if nodes.last().live {
            1nat
        } else {
            0nat
        }
    }
}

/// Following the named entries from directory `cur`.
pub open spec fn walk(nodes: Seq<NodeView>, cur: Seq<char>, parts: Seq<Seq<char>>) -> Option<
    Seq<char>,
>
    decreases parts.len(),
{
    if parts.len() == 0 {
        Some(cur)
    } else {
        match index_of_child(nodes, cur, parts[0]) {
            Some(i) => walk(nodes, nodes[i].id, parts.drop_first()),
            None => None,
        }
    }
}

/// The live node that `path` names, from the root, ignoring empty components.
pub open spec fn resolve_spec(nodes: Seq<NodeView>, path: Seq<char>) -> Option<NodeView> {
    if path == seq!['/'] || path.len() == 0 {
        live_node(nodes, root_id())
    } else {
        match walk(nodes, root_id(), nonempty_pieces(path, '/')) {
            Some(id) => live_node(nodes, id),
            None => None,
        }
    }
}

impl FsSnapshot {
    /// Whether the last log entry with id `op_id` took effect.
    pub fn op_effective(&self, op_id: &str) -> (r: bool)
        ensures
            r == last_effect(self@.effects, op_id@),
    {
        let key = String::from_str(op_id);
        let ghost e = effects_view(self.effects@);
        let mut i = self.effects.len();
        assert(e.take(i as int) =~= e);
        while i > 0
            invariant
                e == effects_view(self.effects@),
                key@ == op_id@,
                i <= e.len(),
                last_effect(e, op_id@) == last_effect(e.take(i as int), op_id@),
            decreases i,
        {
            assert(e.take(i as int).drop_last() =~= e.take(i - 1));
            assert(e.take(i as int).last() == e[i - 1]);
            assert(e[i - 1] == (self.effects@[i - 1].0@, self.effects@[i - 1].1));
            let ghost t = e.take(i as int);
            assert(t.len() > 0);
            assert(last_effect(t, op_id@) == if t.last().0 == op_id@ {
                t.last().1
            } else {
                last_effect(t.drop_last(), op_id@)
            });
            if self.effects[i - 1].0 == key {
                assert(self.effects@[i - 1].0@ == op_id@);
                assert(t.last().0 == op_id@);
                return self.effects[i - 1].1;
            }
            assert(t.last().0 != op_id@);
            i = i - 1;
        }
        false
    }

    /// The live node named `id`.
    pub fn node(&self, id: &str) -> (r: Option<&Node>)
        ensures
            node_ref_view(r) == live_node(self@.nodes, id@),
            nodes_wf(self@.nodes),
    {
        proof {
            use_type_invariant(self);
        }
        proof {
            use_type_invariant(self);
        }
        let key = String::from_str(id);
        match find_id(&self.nodes, &self.ids, &key) {
            Some(i) => {
                if self.nodes[i].live {
                    Some(&self.nodes[i])
                } else {
                    None
                }
            },
            None => None,
        }
    }

    /// The live node with inode number `ino`.
    pub fn node_by_ino(&self, ino: u64) -> (r: Option<&Node>)
        ensures
            node_ref_view(r) == node_at_ino(self@.nodes, ino),
            nodes_wf(self@.nodes),
    {
        proof {
            use_type_invariant(self);
        }
        if ino >= 1 && ino <= self.nodes.len() as u64 {
            let i = (ino - 1) as usize;
            if self.nodes[i].live {
                return Some(&self.nodes[i]);
            }
        }
        None
    }

    /// The id of the live node with inode number `ino`.
    pub fn id_for_ino(&self, ino: u64) -> (r: Option<&str>)
        ensures
            str_ref_view(r) == view_id(node_at_ino(self@.nodes, ino)),
            nodes_wf(self@.nodes),
    {
        proof {
            use_type_invariant(self);
        }
        match self.node_by_ino(ino) {
            Some(n) => Some(n.id.as_str()),
            None => None,
        }
    }

    /// The inode number of the node named `id`, live or removed.
    pub fn ino_for_id(&self, id: &str) -> (r: Option<u64>)
        ensures
            r == match index_of_id(self@.nodes, id@) {
                Some(i) => Some((i + 1) as u64),
                None => None::<u64>,
            },
            nodes_wf(self@.nodes),
    {
        proof {
            use_type_invariant(self);
        }
        proof {
            use_type_invariant(self);
        }
        let key = String::from_str(id);
        match find_id(&self.nodes, &self.ids, &key) {
            Some(i) => {
                let n = self.nodes.len();
                assert(i < n);
                Some(i as u64 + 1)
            },
            None => None,
        }
    }

    /// The live entry `name` of directory `parent`.
    pub fn lookup_child(&self, parent: &str, name: &str) -> (r: Option<&Node>)
        ensures
            node_ref_view(r) == child_node(self@.nodes, parent@, name@),
            nodes_wf(self@.nodes),
    {
        proof {
            use_type_invariant(self);
        }
        proof {
            use_type_invariant(self);
        }
        let p = String::from_str(parent);
        let n = String::from_str(name);
        match find_child(&self.nodes, &self.children, &p, &n) {
            Some(i) => Some(&self.nodes[i]),
            None => None,
        }
    }

    /// The id of the live entry `name` of directory `parent`.
    pub fn child_id(&self, parent: &str, name: &str) -> (r: Option<&str>)
        ensures
            str_ref_view(r) == view_id(child_node(self@.nodes, parent@, name@)),
            nodes_wf(self@.nodes),
    {
        proof {
            use_type_invariant(self);
        }
        match self.lookup_child(parent, name) {
            Some(n) => Some(n.id.as_str()),
            None => None,
        }
    }

    /// The number of live nodes, the root included.
    pub fn live_node_count(&self) -> (r: u64)
        ensures
            r == live_count(self@.nodes),
            nodes_wf(self@.nodes),
    {
        proof {
            use_type_invariant(self);
        }
        let ghost v = nodes_view(self.nodes@);
        let mut count: u64 = 0;
        for i in 0..self.nodes.len()
            invariant
                v == nodes_view(self.nodes@),
                count == live_count(v.take(i as int)),
                count <= i,
        {
            assert(v.take(i + 1).drop_last() =~= v.take(i as int));
            if self.nodes[i].live {
                count = count + 1;
            }
        }
        assert(v.take(v.len() as int) =~= v);
        count
    }

    /// The live node that `path` names.
    pub fn resolve_path(&self, path: &str) -> (r: Option<&Node>)
        ensures
            node_ref_view(r) == resolve_spec(self@.nodes, path@),
            nodes_wf(self@.nodes),
    {
        proof {
            use_type_invariant(self);
        }
        proof {
            use_type_invariant(self);
            reveal_strlit("/");
            assert("/"@ =~= seq!['/']);
        }
        if path.is_empty() || String::from_str(path) == String::from_str("/") {
            let root = root_id_string();
            return self.node(root.as_str());
        }
        assert(path@ != seq!['/']);
        assert(path@.len() != 0);
        let parts = split_nonempty(path, '/');
        let ghost pv = string_views(parts@);
        let ghost v = nodes_view(self.nodes@);
        let mut current = root_id_string();
        assert(pv.skip(0) =~= pv);
        for i in 0..parts.len()
            invariant
                v == nodes_view(self.nodes@),
                nodes_wf(v),
                child_index_ok(v, self.children@),
                pv == string_views(parts@),
                pv == nonempty_pieces(path@, '/'),
                path@ != seq!['/'],
                path@.len() != 0,
                walk(v, root_id(), pv) == walk(v, current@, pv.skip(i as int)),
        {
            assert(pv.skip(i as int)[0] == parts@[i as int]@);
            assert(pv.skip(i as int).drop_first() =~= pv.skip(i + 1));
            match find_child(&self.nodes, &self.children, &current, &parts[i]) {
                Some(k) => {
                    current = self.nodes[k].id.clone();
                },
                None => {
                    assert(pv.skip(i as int).len() > 0);
                    assert(index_of_child(v, current@, pv.skip(i as int)[0]) is None);
                    assert(walk(v, current@, pv.skip(i as int)) is None);
                    return None;
                },
            }
        }
        assert(pv.skip(pv.len() as int) =~= Seq::<Seq<char>>::empty());
        assert(walk(v, root_id(), pv) == Some(current@));
        self.node(current.as_str())
    }
}

} // verus!

verus! {

pub open spec fn is_child_at(nodes: Seq<NodeView>, k: int, parent: Seq<char>) -> bool {
    0 <= k < nodes.len() && nodes[k].live && nodes[k].parent == Some(parent)
}

pub open spec fn is_some_child(nodes: Seq<NodeView>, parent: Seq<char>, n: NodeView) -> bool {
    exists|k: int| is_child_at(nodes, k, parent) && n == nodes[k]
}

/// `s` lists the live entries of `parent`, each once, in Rust's order on their names.
pub open spec fn is_listing(nodes: Seq<NodeView>, parent: Seq<char>, s: Seq<NodeView>) -> bool {
    &&& forall|i: int| 0 <= i < s.len() ==> #[trigger] is_some_child(nodes, parent, s[i])
    &&& forall|k: int| is_child_at(nodes, k, parent) ==> s.contains(nodes[k])
    &&& forall|i: int, j: int| 0 <= i < j < s.len() ==> str_lt(s[i].name, s[j].name)
}

pub open spec fn node_refs_view(v: Seq<&Node>) -> Seq<NodeView> {
    v.map_values(|n: &Node| n@)
}

pub open spec fn sorted_children(nodes: Seq<NodeView>, idx: Seq<usize>) -> bool {
    forall|a: int, b: int|
        0 <= a < b < idx.len() ==> str_lt(nodes[idx[a] as int].name, nodes[idx[b] as int].name)
}

impl FsSnapshot {
    /// The live entries of `parent`, ordered by name.
    pub fn children_of(&self, parent: &str) -> (r: Vec<&Node>)
        ensures
            is_listing(self@.nodes, parent@, node_refs_view(r@)),
            nodes_wf(self@.nodes),
    {
        proof {
            use_type_invariant(self);
        }
        proof {
            use_type_invariant(self);
        }
        let ghost v = nodes_view(self.nodes@);
        let key = String::from_str(parent);
        let mut idx: Vec<usize> = Vec::new();
        for k in 0..self.nodes.len()
            invariant
                v == nodes_view(self.nodes@),
                nodes_wf(v),
                key@ == parent@,
                forall|a: int| 0 <= a < idx@.len() ==> idx@[a] < k && is_child_at(v, idx@[a] as int, parent@),
                forall|c: int| 0 <= c < k && is_child_at(v, c, parent@) ==> idx@.contains(c as usize),
                sorted_children(v, idx@),
        {
            let n = &self.nodes[k];
            let mut is_child = false;
            if n.live {
                match &n.parent {
                    Some(p) => {
                        is_child = *p == key;
                    },
                    None => {},
                }
            }
            if is_child {
                assert(is_child_at(v, k as int, parent@));
                let mut pos: usize = 0;
                while pos < idx.len() && !str_less(n.name.as_str(), self.nodes[idx[pos]].name.as_str())
                    invariant
                        v == nodes_view(self.nodes@),
                        nodes_wf(v),
                        is_child_at(v, k as int, parent@),
                        n@ == v[k as int],
                        pos <= idx@.len(),
                        forall|a: int| 0 <= a < idx@.len() ==> idx@[a] < k && is_child_at(v, idx@[a] as int, parent@),
                        forall|a: int| 0 <= a < pos ==> str_lt(v[idx@[a] as int].name, v[k as int].name),
                    decreases idx@.len() - pos,
                {
                    proof {
                        let o = idx@[pos as int] as int;
                        assert(children_unique(v));
                        assert(v[o].name != v[k as int].name);
                        lemma_str_lt_order(v[k as int].name, v[o].name, v[o].name);
                    }
                    pos = pos + 1;
                }
                let ghost old_idx = idx@;
                idx.insert(pos, k);
                proof {
                    let nk = v[k as int].name;
                    assert(idx@ == old_idx.insert(pos as int, k));
                    if pos < old_idx.len() {
                        assert(str_lt(nk, v[old_idx[pos as int] as int].name));
                    }
                    assert forall|a: int, b: int| 0 <= a < b < idx@.len() implies str_lt(
                        v[idx@[a] as int].name,
                        v[idx@[b] as int].name,
                    ) by {
                        if b < pos {
                            assert(idx@[a] == old_idx[a] && idx@[b] == old_idx[b]);
                        } else if b == pos {
                            assert(idx@[a] == old_idx[a]);
                        } else if a < pos {
                            assert(idx@[a] == old_idx[a] && idx@[b] == old_idx[b - 1]);
                        } else if a == pos {
                            assert(idx@[b] == old_idx[b - 1]);
                            let first = v[old_idx[pos as int] as int].name;
                            if b - 1 > pos {
                                lemma_str_lt_order(nk, first, v[old_idx[b - 1] as int].name);
                            }
                        } else {
                            assert(idx@[a] == old_idx[a - 1] && idx@[b] == old_idx[b - 1]);
                        }
                    }
                    assert forall|c: int| 0 <= c < k + 1 && is_child_at(v, c, parent@) implies idx@.contains(
                        c as usize,
                    ) by {
                        if c == k {
                            assert(idx@[pos as int] == k);
                        } else {
                            assert(old_idx.contains(c as usize));
                            let w = choose|w: int| 0 <= w < old_idx.len() && old_idx[w] == c as usize;
                            if w < pos {
                                assert(idx@[w] == c as usize);
                            } else {
                                assert(idx@[w + 1] == c as usize);
                            }
                        }
                    }
                }
            }
        }
        let mut r: Vec<&Node> = Vec::new();
        for j in 0..idx.len()
            invariant
                v == nodes_view(self.nodes@),
                forall|a: int| 0 <= a < idx@.len() ==> idx@[a] < v.len(),
                r@.len() == j,
                forall|a: int| 0 <= a < j ==> r@[a]@ == v[idx@[a] as int],
        {
            r.push(&self.nodes[idx[j]]);
        }
        proof {
            let rv = node_refs_view(r@);
            assert forall|i: int| 0 <= i < rv.len() implies is_some_child(v, parent@, rv[i]) by {
                assert(is_child_at(v, idx@[i] as int, parent@) && rv[i] == v[idx@[i] as int]);
            }
            assert forall|c: int| is_child_at(v, c, parent@) implies rv.contains(v[c]) by {
                assert(idx@.contains(c as usize));
                let w = choose|w: int| 0 <= w < idx@.len() && idx@[w] == c as usize;
                assert(rv[w] == v[c]);
            }
        }
        r
    }
}

} // verus!

verus! {

/// Replaying any log leaves a well-formed node list: in particular every live node sits in
/// a live directory, and no directory holds two live entries of one name.
pub proof fn lemma_replay_wf(ops: Seq<FsOpView>)
    ensures
        nodes_wf(replay_spec(ops).nodes),
    decreases ops.len(),
{
    if ops.len() == 0 {
        let nodes = replay_spec(ops).nodes;
        assert(nodes =~= seq![root_node()]);
        assert(is_live_dir(nodes, root_id())) by {
            lemma_index_of_id(nodes, root_id(), 0);
        }
    } else {
        lemma_replay_wf(ops.drop_last());
        let prev = replay_spec(ops.drop_last()).nodes;
        if apply_spec(prev, ops.last()) is Some {
            lemma_apply_preserves_wf(prev, ops.last());
        }
    }
}

pub open spec fn is_create(op: FsOpView) -> bool {
    op is Mkdir || op is CreateFile
}

/// The directory and name that a create, unlink or rmdir entry is about.
pub open spec fn entry_target(op: FsOpView) -> (Seq<char>, Seq<char>) {
    match op {
        FsOpView::Mkdir { parent, name, .. } => (parent, name),
        FsOpView::CreateFile { parent, name, .. } => (parent, name),
        FsOpView::Unlink { parent, name, .. } => (parent, name),
        FsOpView::Rmdir { parent, name, .. } => (parent, name),
        FsOpView::CommitFile { object, .. } => (object, Seq::empty()),
    }
}

pub open spec fn removes_entry(op: FsOpView, parent: Seq<char>, name: Seq<char>) -> bool {
    (op is Unlink || op is Rmdir) && entry_target(op) == (parent, name)
}

/// Whether the last entry of a non-empty log took effect.
pub open spec fn last_took_effect(ops: Seq<FsOpView>) -> bool {
    replay_spec(ops).effects.last().1
}

proof fn lemma_apply_keeps_child(
    nodes: Seq<NodeView>,
    op: FsOpView,
    k: int,
    parent: Seq<char>,
    name: Seq<char>,
)
    requires
        is_live_child(nodes, k, parent, name),
        apply_spec(nodes, op) is Some,
        !removes_entry(op, parent, name),
    ensures
        is_live_child(apply_spec(nodes, op)->0, k, parent, name),
{
    match op {
        FsOpView::Unlink { parent: p, name: n, .. } => {
            let i = index_of_child(nodes, p, n)->0;
            assert(is_live_child(nodes, i, p, n));
        },
        FsOpView::Rmdir { parent: p, name: n, .. } => {
            let i = index_of_child(nodes, p, n)->0;
            assert(is_live_child(nodes, i, p, n));
        },
        FsOpView::CommitFile { object, .. } => {
            lemma_index_of_id_some(nodes, object);
        },
        _ => {},
    }
}

proof fn lemma_replay_keeps_child(
    base: Seq<FsOpView>,
    mid: Seq<FsOpView>,
    k: int,
    parent: Seq<char>,
    name: Seq<char>,
)
    requires
        is_live_child(replay_spec(base).nodes, k, parent, name),
        forall|i: int| 0 <= i < mid.len() ==> !removes_entry(#[trigger] mid[i], parent, name),
    ensures
        is_live_child(replay_spec(base + mid).nodes, k, parent, name),
    decreases mid.len(),
{
    if mid.len() == 0 {
        assert(base + mid =~= base);
    } else {
        let shorter = mid.drop_last();
        lemma_replay_keeps_child(base, shorter, k, parent, name);
        assert((base + mid).drop_last() =~= base + shorter);
        assert((base + mid).last() == mid[mid.len() - 1]);
        let prev = replay_spec(base + shorter).nodes;
        if apply_spec(prev, mid.last()) is Some {
            lemma_apply_keeps_child(prev, mid.last(), k, parent, name);
        }
    }
}

/// First writer wins: once a create of `name` in `parent` has taken effect, a later create
/// of the same name in the same directory takes no effect, unless an unlink or rmdir of
/// that name came between.
pub proof fn lemma_first_create_wins(
    pre: Seq<FsOpView>,
    first: FsOpView,
    mid: Seq<FsOpView>,
    second: FsOpView,
)
    requires
        is_create(first),
        is_create(second),
        entry_target(first) == entry_target(second),
        last_took_effect(pre.push(first)),
        forall|i: int|
            0 <= i < mid.len() ==> !removes_entry(
                #[trigger] mid[i],
                entry_target(first).0,
                entry_target(first).1,
            ),
    ensures
        !last_took_effect((pre.push(first) + mid).push(second)),
{
    let (parent, name) = entry_target(first);
    let base = pre.push(first);
    assert(base.drop_last() =~= pre);
    let before = replay_spec(pre).nodes;
    let after = replay_spec(base).nodes;
    assert(apply_spec(before, first) is Some);
    let k = after.len() - 1;
    assert(is_live_child(after, k, parent, name));
    lemma_replay_keeps_child(base, mid, k, parent, name);
    let all = (base + mid).push(second);
    assert(all.drop_last() =~= base + mid);
    let last_nodes = replay_spec(base + mid).nodes;
    assert(index_of_child(last_nodes, parent, name) is Some);
    assert(apply_spec(last_nodes, second) is None);
}

pub open spec fn is_commit_of(op: FsOpView, object: Seq<char>) -> bool {
    op matches FsOpView::CommitFile { object: o, .. } && o == object
}

proof fn lemma_apply_keeps_manifest(
    nodes: Seq<NodeView>,
    op: FsOpView,
    k: int,
    object: Seq<char>,
    manifest: ManifestView,
)
    requires
        has_id(nodes, k, object),
        nodes[k].manifest == Some(manifest),
        apply_spec(nodes, op) is Some,
        !is_commit_of(op, object),
    ensures
        has_id(apply_spec(nodes, op)->0, k, object),
        (apply_spec(nodes, op)->0)[k].manifest == Some(manifest),
{
    match op {
        FsOpView::CommitFile { object: o, .. } => {
            lemma_index_of_id_some(nodes, o);
        },
        FsOpView::Unlink { parent: p, name: n, .. } => {
            let i = index_of_child(nodes, p, n)->0;
            assert(is_live_child(nodes, i, p, n));
        },
        FsOpView::Rmdir { parent: p, name: n, .. } => {
            let i = index_of_child(nodes, p, n)->0;
            assert(is_live_child(nodes, i, p, n));
        },
        _ => {},
    }
}

proof fn lemma_replay_keeps_manifest(
    base: Seq<FsOpView>,
    mid: Seq<FsOpView>,
    k: int,
    object: Seq<char>,
    manifest: ManifestView,
)
    requires
        has_id(replay_spec(base).nodes, k, object),
        replay_spec(base).nodes[k].manifest == Some(manifest),
        forall|i: int| 0 <= i < mid.len() ==> !is_commit_of(#[trigger] mid[i], object),
    ensures
        has_id(replay_spec(base + mid).nodes, k, object),
        replay_spec(base + mid).nodes[k].manifest == Some(manifest),
    decreases mid.len(),
{
    if mid.len() == 0 {
        assert(base + mid =~= base);
    } else {
        let shorter = mid.drop_last();
        lemma_replay_keeps_manifest(base, shorter, k, object, manifest);
        assert((base + mid).drop_last() =~= base + shorter);
        let prev = replay_spec(base + shorter).nodes;
        let op = mid.last();
        assert(!is_commit_of(mid[mid.len() - 1], object));
        if apply_spec(prev, op) is Some {
            lemma_apply_keeps_manifest(prev, op, k, object, manifest);
        }
    }
}

/// Last valid commit wins: after a commit to a file takes effect, and while no later
/// commit names that file, the file's node keeps that commit's manifest (whether or not it
/// is later unlinked).
pub proof fn lemma_last_commit_wins(pre: Seq<FsOpView>, commit: FsOpView, mid: Seq<FsOpView>)
    requires
        commit is CommitFile,
        last_took_effect(pre.push(commit)),
        forall|i: int| 0 <= i < mid.len() ==> !is_commit_of(#[trigger] mid[i], commit->CommitFile_object),
    ensures
        ({
            let nodes = replay_spec(pre.push(commit) + mid).nodes;
            &&& index_of_id(nodes, commit->CommitFile_object) is Some
            &&& nodes[index_of_id(nodes, commit->CommitFile_object)->0].manifest == Some(commit->CommitFile_manifest)
        }),
{
    let base = pre.push(commit);
    assert(base.drop_last() =~= pre);
    let before = replay_spec(pre).nodes;
    lemma_replay_wf(pre);
    lemma_replay_wf(base);
    let k = index_of_id(before, commit->CommitFile_object)->0;
    assert(apply_spec(before, commit) is Some);
    lemma_index_of_id_some(before, commit->CommitFile_object);
    lemma_replay_keeps_manifest(base, mid, k, commit->CommitFile_object, commit->CommitFile_manifest);
    let nodes = replay_spec(base + mid).nodes;
    lemma_replay_wf(base + mid);
    lemma_index_of_id(nodes, commit->CommitFile_object, k);
}

} // verus!

verus! {

/// Whether `new` keeps every node of `old` in its place, with its identity and position in
/// the tree, and keeps removed nodes removed.
pub open spec fn keeps_nodes(old: Seq<NodeView>, new: Seq<NodeView>) -> bool {
    &&& old.len() <= new.len()
    &&& forall|i: int|
        0 <= i < old.len() ==> {
            &&& (#[trigger] new[i]).id == old[i].id
            &&& new[i].parent == old[i].parent
            &&& new[i].name == old[i].name
            &&& new[i].kind == old[i].kind
            &&& (!old[i].live ==> !new[i].live)
        }
}

/// Inode numbers are stable: replaying a longer log never drops or moves a node, never
/// changes what a node is, and never brings a removed node back.
pub proof fn lemma_replay_keeps_nodes(pre: Seq<FsOpView>, more: Seq<FsOpView>)
    ensures
        keeps_nodes(replay_spec(pre).nodes, replay_spec(pre + more).nodes),
    decreases more.len(),
{
    if more.len() == 0 {
        assert(pre + more =~= pre);
    } else {
        let shorter = more.drop_last();
        lemma_replay_keeps_nodes(pre, shorter);
        let all = pre + more;
        assert(all.drop_last() =~= pre + shorter);
        let old = replay_spec(pre + shorter).nodes;
        let op = all.last();
        match apply_spec(old, op) {
            Some(new) => {
                assert(keeps_nodes(old, new));
            },
            None => {},
        }
    }
}

} // verus!

verus! {

/// Whether entry `k` of `ops` took effect when replayed after the entries before it.
pub open spec fn took_effect_at(ops: Seq<FsOpView>, k: int) -> bool {
    apply_spec(replay_spec(ops.take(k)).nodes, ops[k]) is Some
}

/// The node that a create entry makes, `None` for other entries.
pub open spec fn created_object(op: FsOpView) -> Option<Seq<char>> {
    match op {
        FsOpView::Mkdir { object, .. } => Some(object),
        FsOpView::CreateFile { object, .. } => Some(object),
        _ => None,
    }
}

pub open spec fn is_removal(op: FsOpView) -> bool {
    op is Unlink || op is Rmdir
}

/// The ids of the nodes that the creates of `ops` which took effect made, in log order.
pub open spec fn created_ids(ops: Seq<FsOpView>) -> Seq<Seq<char>>
    decreases ops.len(),
{
    if ops.len() == 0 {
        Seq::empty()
    } else {
        let prev = created_ids(ops.drop_last());
        match created_object(ops.last()) {
            Some(object) => if apply_spec(replay_spec(ops.drop_last()).nodes, ops.last()) is Some {
                prev.push(object)
            } else {
                prev
            },
            None => prev,
        }
    }
}

/// How many removals (unlinks and rmdirs) of `ops` took effect.
pub open spec fn effective_removals(ops: Seq<FsOpView>) -> nat
    decreases ops.len(),
{
    if ops.len() == 0 {
        0
    } else {
        effective_removals(ops.drop_last()) + if is_removal(ops.last()) && apply_spec(
            replay_spec(ops.drop_last()).nodes,
            ops.last(),
        ) is Some {
            1nat
        } else {
            0nat
        }
    }
}

/// The position of the last entry of `ops` with id `op_id`.
pub open spec fn last_with_id(ops: Seq<FsOpView>, op_id: Seq<char>) -> Option<int>
    decreases ops.len(),
{
    if ops.len() == 0 {
        None
    } else if ops.last().op_id() == op_id {
        Some(ops.len() - 1)
    } else {
        last_with_id(ops.drop_last(), op_id)
    }
}

/// An entry without effect changes nothing: replaying it only records that it had none.
pub proof fn lemma_ineffective_entry(ops: Seq<FsOpView>, op: FsOpView)
    ensures
        replay_spec(ops.push(op)).effects == replay_spec(ops).effects.push(
            (op.op_id(), apply_spec(replay_spec(ops).nodes, op) is Some),
        ),
        apply_spec(replay_spec(ops).nodes, op) is None ==> replay_spec(ops.push(op)).nodes
            == replay_spec(ops).nodes,
{
    assert(ops.push(op).drop_last() =~= ops);
}

/// Whether an entry took effect is what the last entry with its id did: `op_effective`
/// reports `false` where no entry has the id, and otherwise whether the last entry with
/// the id changed the nodes when it was replayed.
pub proof fn lemma_op_effective_is_last_entry(ops: Seq<FsOpView>, op_id: Seq<char>)
    ensures
        last_effect(replay_spec(ops).effects, op_id) == match last_with_id(ops, op_id) {
            Some(k) => took_effect_at(ops, k),
            None => false,
        },
    decreases ops.len(),
{
    if ops.len() > 0 {
        let prev = ops.drop_last();
        lemma_op_effective_is_last_entry(prev, op_id);
        assert(prev.push(ops.last()) =~= ops);
        lemma_ineffective_entry(prev, ops.last());
        let effects = replay_spec(ops).effects;
        assert(effects.drop_last() =~= replay_spec(prev).effects);
        assert(ops.take(ops.len() - 1) =~= prev);
        if let Some(k) = last_with_id(prev, op_id) {
            lemma_last_with_id_range(prev, op_id);
            assert(prev.take(k) =~= ops.take(k));
        }
    }
}

proof fn lemma_last_with_id_range(ops: Seq<FsOpView>, op_id: Seq<char>)
    ensures
        last_with_id(ops, op_id) matches Some(k) ==> 0 <= k < ops.len() && ops[k].op_id() == op_id,
    decreases ops.len(),
{
    if ops.len() > 0 && ops.last().op_id() != op_id {
        lemma_last_with_id_range(ops.drop_last(), op_id);
    }
}

/// Inode numbers go in the order of creation: the root has inode 1, and the node made by
/// the `j`-th create that took effect has inode `j + 2`; there are no other nodes.
pub proof fn lemma_inode_numbering(ops: Seq<FsOpView>)
    ensures
        ({
            let nodes = replay_spec(ops).nodes;
            let created = created_ids(ops);
            &&& nodes.len() == created.len() + 1
            &&& nodes[0].id == root_id()
            &&& index_of_id(nodes, root_id()) == Some(0int)
            &&& forall|j: int| 0 <= j < created.len() ==> nodes[j + 1].id == #[trigger] created[j]
            &&& forall|j: int| 0 <= j < created.len() ==> index_of_id(nodes, #[trigger] created[j]) == Some(
                j + 1,
            )
        }),
    decreases ops.len(),
{
    let nodes = replay_spec(ops).nodes;
    let created = created_ids(ops);
    if ops.len() > 0 {
        let prev = ops.drop_last();
        let op = ops.last();
        lemma_inode_numbering(prev);
        assert(prev.push(op) =~= ops);
        assert(prev + seq![op] =~= ops);
        lemma_replay_keeps_nodes(prev, seq![op]);
        let old = replay_spec(prev).nodes;
        match apply_spec(old, op) {
            Some(new) => {
                if created_object(op) is Some {
                    assert(new.len() == old.len() + 1);
                    assert(new[old.len() as int].id == created_object(op)->0);
                } else {
                    assert(new.len() == old.len());
                }
                assert forall|j: int| 0 <= j < created.len() implies nodes[j + 1].id == #[trigger] created[j] by {
                    if j < created_ids(prev).len() {
                        assert(old[j + 1].id == created_ids(prev)[j]);
                    }
                }
            },
            None => {},
        }
    }
    lemma_replay_wf(ops);
    lemma_index_of_id(nodes, root_id(), 0);
    assert forall|j: int| 0 <= j < created.len() implies index_of_id(nodes, #[trigger] created[j]) == Some(j + 1) by {
        assert(nodes[j + 1].id == created[j]);
        lemma_index_of_id(nodes, created[j], j + 1);
    }
}

/// The queries of any snapshot agree with one another (every snapshot's node list is well
/// formed, as its queries state):
/// - the node with inode `ino` is live and named `id` exactly where `id` has inode `ino`
///   and names a live node, and then it is that node; the root always has inode 1;
/// - the live entry `name` of `parent` is the live node of its id, with that parent and
///   name;
/// - a `parent` that is no live directory has no live entries, so its listing is empty.
pub proof fn lemma_snapshot_queries(
    nodes: Seq<NodeView>,
    ino: u64,
    id: Seq<char>,
    parent: Seq<char>,
    name: Seq<char>,
    listing: Seq<NodeView>,
)
    requires
        nodes_wf(nodes),
    ensures
        (view_id(node_at_ino(nodes, ino)) == Some(id)) == (index_of_id(nodes, id) == Some(ino - 1)
            && live_node(nodes, id) is Some),
        node_at_ino(nodes, ino) == match view_id(node_at_ino(nodes, ino)) {
            Some(x) => live_node(nodes, x),
            None => None,
        },
        node_at_ino(nodes, 1) == Some(root_node()),
        child_node(nodes, parent, name) matches Some(c) ==> live_node(nodes, c.id) == Some(c) && c.parent
            == Some(parent) && c.name == name,
        !is_live_dir(nodes, parent) ==> !has_live_children(nodes, parent) && child_node(nodes, parent, name) is None,
        !is_live_dir(nodes, parent) && is_listing(nodes, parent, listing) ==> listing.len() == 0,
{
    if let Some(n) = node_at_ino(nodes, ino) {
        lemma_index_of_id(nodes, n.id, ino - 1);
    }
    if index_of_id(nodes, id) == Some(ino - 1) {
        lemma_index_of_id_some(nodes, id);
    }
    if let Some(c) = child_node(nodes, parent, name) {
        let k = index_of_child(nodes, parent, name)->0;
        assert(is_live_child(nodes, k, parent, name));
        lemma_index_of_id(nodes, c.id, k);
    }
    if !is_live_dir(nodes, parent) {
        if has_live_children(nodes, parent) {
            let k = choose|k: int| 0 <= k < nodes.len() && nodes[k].live && nodes[k].parent == Some(parent);
            if k == 0 {
                assert(nodes[0] == root_node());
            }
            assert(nodes[k].parent->0 == parent);
        }
        if child_node(nodes, parent, name) is Some {
            let k = index_of_child(nodes, parent, name)->0;
            assert(is_live_child(nodes, k, parent, name));
            assert(0 <= k < nodes.len() && nodes[k].live && nodes[k].parent == Some(parent));
        }
        if is_listing(nodes, parent, listing) && listing.len() > 0 {
            assert(is_some_child(nodes, parent, listing[0]));
            let k = choose|k: int| is_child_at(nodes, k, parent) && listing[0] == nodes[k];
            assert(0 <= k < nodes.len() && nodes[k].live && nodes[k].parent == Some(parent));
        }
    }
}

/// Inodes and ids agree on every replayed log (see `lemma_snapshot_queries`).
pub proof fn lemma_ino_and_id(ops: Seq<FsOpView>, ino: u64, id: Seq<char>)
    ensures
        ({
            let nodes = replay_spec(ops).nodes;
            &&& (view_id(node_at_ino(nodes, ino)) == Some(id)) == (index_of_id(nodes, id) == Some(
                ino - 1,
            ) && live_node(nodes, id) is Some)
            &&& node_at_ino(nodes, ino) == match view_id(node_at_ino(nodes, ino)) {
                Some(x) => live_node(nodes, x),
                None => None,
            }
            &&& node_at_ino(nodes, 1) == Some(root_node())
        }),
{
    lemma_replay_wf(ops);
    lemma_snapshot_queries(replay_spec(ops).nodes, ino, id, Seq::empty(), Seq::empty(), Seq::empty());
}

proof fn lemma_live_count_update(s: Seq<NodeView>, i: int, v: NodeView)
    requires
        0 <= i < s.len(),
    ensures
        live_count(s.update(i, v)) + (if s[i].live { 1int } else { 0int }) == live_count(s) + (if v.live {
            1int
        } else {
            0int
        }),
    decreases s.len(),
{
    let t = s.update(i, v);
    if i == s.len() - 1 {
        assert(t.drop_last() =~= s.drop_last());
    } else {
        lemma_live_count_update(s.drop_last(), i, v);
        assert(t.drop_last() =~= s.drop_last().update(i, v));
    }
}

/// The number of live nodes is the root, plus the creates that took effect, less the
/// removals that took effect.
pub proof fn lemma_live_node_count(ops: Seq<FsOpView>)
    ensures
        live_count(replay_spec(ops).nodes) == 1 + created_ids(ops).len() - effective_removals(ops),
    decreases ops.len(),
{
    if ops.len() == 0 {
        let nodes = replay_spec(ops).nodes;
        assert(nodes.drop_last() =~= Seq::<NodeView>::empty());
        assert(live_count(Seq::<NodeView>::empty()) == 0);
    } else {
        let prev = ops.drop_last();
        let op = ops.last();
        lemma_live_node_count(prev);
        let old = replay_spec(prev).nodes;
        match apply_spec(old, op) {
            Some(new) => {
                match op {
                    FsOpView::Mkdir { .. } => {
                        assert(new.drop_last() =~= old);
                    },
                    FsOpView::CreateFile { .. } => {
                        assert(new.drop_last() =~= old);
                    },
                    FsOpView::CommitFile { object, manifest, mtime_ms, .. } => {
                        let i = index_of_id(old, object)->0;
                        lemma_live_count_update(old, i, NodeView { manifest: Some(manifest), modified_ms: mtime_ms, ..old[i] });
                    },
                    FsOpView::Unlink { parent, name, mtime_ms, .. } => {
                        let i = index_of_child(old, parent, name)->0;
                        assert(is_live_child(old, i, parent, name));
                        lemma_live_count_update(old, i, NodeView { live: false, modified_ms: mtime_ms, ..old[i] });
                    },
                    FsOpView::Rmdir { parent, name, mtime_ms, .. } => {
                        let i = index_of_child(old, parent, name)->0;
                        assert(is_live_child(old, i, parent, name));
                        lemma_live_count_update(old, i, NodeView { live: false, modified_ms: mtime_ms, ..old[i] });
                    },
                }
            },
            None => {},
        }
    }
}

} // verus!

verus! {

/// A create that takes effect makes a live node with exactly what the entry asked for: its
/// id, parent, name and kind, its mode, and its time as both creation and modification
/// time, with no contents yet.
pub proof fn lemma_create_makes_node(pre: Seq<FsOpView>, op: FsOpView)
    requires
        op is Mkdir || op is CreateFile,
        last_took_effect(pre.push(op)),
    ensures
        match op {
            FsOpView::Mkdir { parent, name, object, mode, mtime_ms, .. } => live_node(
                replay_spec(pre.push(op)).nodes,
                object,
            ) == Some(
                NodeView {
                    id: object,
                    parent: Some(parent),
                    name,
                    kind: NodeKind::Directory,
                    mode,
                    created_ms: mtime_ms,
                    modified_ms: mtime_ms,
                    live: true,
                    manifest: None,
                },
            ),
            FsOpView::CreateFile { parent, name, object, mode, mtime_ms, .. } => live_node(
                replay_spec(pre.push(op)).nodes,
                object,
            ) == Some(
                NodeView {
                    id: object,
                    parent: Some(parent),
                    name,
                    kind: NodeKind::File,
                    mode,
                    created_ms: mtime_ms,
                    modified_ms: mtime_ms,
                    live: true,
                    manifest: None,
                },
            ),
            _ => true,
        },
{
    let all = pre.push(op);
    assert(all.drop_last() =~= pre);
    let old = replay_spec(pre).nodes;
    let nodes = replay_spec(all).nodes;
    lemma_replay_wf(all);
    assert(apply_spec(old, op) is Some);
    let k = old.len() as int;
    assert(nodes.len() == old.len() + 1);
    match op {
        FsOpView::Mkdir { object, .. } => {
            lemma_index_of_id(nodes, object, k);
        },
        FsOpView::CreateFile { object, .. } => {
            lemma_index_of_id(nodes, object, k);
        },
        _ => {},
    }
}

/// A commit that takes effect gives the file the committed contents and the commit's time
/// as its modification time, and leaves everything else about the file as it was.
pub proof fn lemma_commit_updates_file(pre: Seq<FsOpView>, commit: FsOpView)
    requires
        commit is CommitFile,
        last_took_effect(pre.push(commit)),
    ensures
        ({
            let object = commit->CommitFile_object;
            let before = live_node(replay_spec(pre).nodes, object);
            &&& before is Some
            &&& before->0.kind == NodeKind::File
            &&& live_node(replay_spec(pre.push(commit)).nodes, object) == Some(
                NodeView {
                    manifest: Some(commit->CommitFile_manifest),
                    modified_ms: commit->CommitFile_mtime_ms,
                    ..before->0
                },
            )
        }),
{
    let all = pre.push(commit);
    assert(all.drop_last() =~= pre);
    let old = replay_spec(pre).nodes;
    let nodes = replay_spec(all).nodes;
    let object = commit->CommitFile_object;
    lemma_replay_wf(pre);
    lemma_replay_wf(all);
    assert(apply_spec(old, commit) is Some);
    let k = index_of_id(old, object)->0;
    lemma_index_of_id_some(old, object);
    assert(nodes == old.update(
        k,
        NodeView { manifest: Some(commit->CommitFile_manifest), modified_ms: commit->CommitFile_mtime_ms, ..old[k] },
    ));
    lemma_index_of_id(nodes, object, k);
}

} // verus!
