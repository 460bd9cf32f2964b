//! What the mounted filesystem answers, computed from a snapshot and the open files'
//! buffers; the kernel-facing glue stays outside the library.
use vstd::prelude::*;

use crate::errno::FsErrno;
use crate::metadata::{
    child_node, index_of_id, is_listing, node_at_ino, node_refs_view, FsSnapshot, Node, NodeKind,
    NodeView, ROOT_INO,
};
use crate::service::{fails_with, FsError};

verus! {

/// The bytes that a read of `size` bytes at `offset` returns.
pub open spec fn slice_read_spec(data: Seq<u8>, offset: nat, size: nat) -> Seq<u8> {
    if offset >= data.len() {
        Seq::empty()
    } else if offset + size >= data.len() {
        data.subrange(offset as int, data.len() as int)
    } else {
        data.subrange(offset as int, (offset + size) as int)
    }
}

/// Reads `size` bytes at `offset` of an open file's contents.
pub fn slice_read(data: &[u8], offset: u64, size: u32) -> (r: Vec<u8>)
    ensures
        r@ == slice_read_spec(data@, (offset as usize) as nat, size as nat),
{
    let offset = offset as usize;
    if offset >= data.len() {
        return Vec::new();
    }
    let end = if data.len() - offset <= size as usize {
        data.len()
    } else {
        offset + size as usize
    };
    vstd::slice::slice_to_vec(&data[offset..end])
}

/// The contents after writing `data` at `offset`: zero-filled up to `offset` where they
/// were shorter, then `data`, then what followed.
pub open spec fn write_at_spec(old: Seq<u8>, offset: nat, data: Seq<u8>) -> Seq<u8> {
    let len = if old.len() > offset + data.len() {
        old.len()
    } else {
        offset + data.len()
    };
    Seq::new(
        len as nat,
        |i: int|
            if offset <= i < offset + data.len() {
                data[i - offset]
            } else if i < old.len() {
                old[i]
            } else {
                0u8
            },
    )
}

/// Writes `data` at `offset` into an open file's buffer.
pub fn write_at(buf: &mut Vec<u8>, offset: u64, data: &[u8])
    requires
        (offset as usize) + data@.len() <= usize::MAX,
    ensures
        final(buf)@ == write_at_spec(old(buf)@, (offset as usize) as nat, data@),
{
    let off = offset as usize;
    let ghost before = buf@;
    let end = off + data.len();
    while buf.len() < end
        invariant
            before.len() <= buf@.len() <= if before.len() > end {
                before.len() as int
            } else {
                end as int
            },
            forall|i: int| 0 <= i < before.len() ==> buf@[i] == before[i],
            forall|i: int| before.len() <= i < buf@.len() ==> buf@[i] == 0u8,
        decreases end - buf@.len(),
    {
        buf.push(0u8);
    }
    let ghost padded = buf@;
    let mut j: usize = 0;
    while j < data.len()
        invariant
            end == off + data@.len(),
            buf@.len() == padded.len(),
            padded.len() >= end,
            j <= data@.len(),
            forall|i: int| 0 <= i < padded.len() ==> buf@[i] == if off <= i < off + j {
                data@[i - off]
            } else {
                padded[i]
            },
        decreases data@.len() - j,
    {
        buf.set(off + j, data[j]);
        j = j + 1;
    }
    assert(buf@ =~= write_at_spec(before, off as nat, data@));
}

/// The contents after truncating or zero-extending them to `size` bytes.
pub open spec fn resize_spec(old: Seq<u8>, size: nat) -> Seq<u8> {
    Seq::new(size, |i: int| if i < old.len() { old[i] } else { 0u8 })
}

/// Truncates or zero-extends an open file's contents to `size` bytes.
pub fn resize_to(buf: &mut Vec<u8>, size: u64)
    ensures
        final(buf)@ == resize_spec(old(buf)@, (size as usize) as nat),
{
    let n = size as usize;
    let ghost before = buf@;
    buf.truncate(n);
    while buf.len() < n
        invariant
            buf@.len() <= n,
            buf@.len() >= if before.len() < n { before.len() as int } else { n as int },
            forall|i: int| 0 <= i < buf@.len() ==> buf@[i] == if i < before.len() {
                before[i]
            } else {
                0u8
            },
        decreases n - buf@.len(),
    {
        buf.push(0u8);
    }
    assert(buf@ =~= resize_spec(before, n as nat));
}

/// The size that a node reports: its committed size for a file, 0 for a directory or an
/// uncommitted file.
pub open spec fn node_size_spec(n: NodeView) -> u64 {
    match n.kind {
        NodeKind::Directory => 0,
        NodeKind::File => match n.manifest {
            Some(m) => m.size,
            None => 0,
        },
    }
}

/// The size, 512-byte block count and link count that a node's attributes report.
pub fn attr_numbers(node: &Node) -> (r: (u64, u64, u32))
    ensures
        r.0 == node_size_spec(node@),
        r.1 == (node_size_spec(node@) + 511) / 512,
        r.2 == (if node@.kind == NodeKind::Directory {
            2u32
        } else {
            1u32
        }),
{
    let size: u64 = match node.kind {
        NodeKind::Directory => 0,
        NodeKind::File => match &node.manifest {
            Some(m) => m.size,
            None => 0,
        },
    };
    let blocks = size / 512 + if size % 512 == 0 {
        0
    } else {
        1
    };
    assert(blocks == (size + 511) / 512) by (nonlinear_arith)
        requires
            blocks == size / 512 + if size % 512 == 0 {
                0int
            } else {
                1int
            },
    ;
    let nlink = if node.kind == NodeKind::Directory {
        2
    } else {
        1
    };
    (size, blocks, nlink)
}

/// The id of the live directory-or-file with inode `ino`, where a request names a parent
/// by inode.
pub fn parent_id_for(snapshot: &FsSnapshot, ino: u64) -> (r: Result<String, FsError>)
    ensures
        match node_at_ino(snapshot@.nodes, ino) {
            Some(n) => r matches Ok(id) && id@ == n.id,
            None => fails_with(r, FsErrno::NotFound, "parent inode not found"@),
        },
{
    match snapshot.id_for_ino(ino) {
        Some(id) => Ok(String::from_str(id)),
        None => Err(FsError::new(FsErrno::NotFound, "parent inode not found")),
    }
}

/// The answer of a lookup of `name` in the directory with inode `parent`: the entry and
/// its inode.
pub fn lookup_entry(snapshot: &FsSnapshot, parent: u64, name: &str) -> (r: Result<(Node, u64), FsError>)
    ensures
        match node_at_ino(snapshot@.nodes, parent) {
            None => fails_with(r, FsErrno::NotFound, "parent not found"@),
            Some(p) => match child_node(snapshot@.nodes, p.id, name@) {
                None => fails_with(r, FsErrno::NotFound, "entry not found"@),
                Some(c) => match ino_of(snapshot@.nodes, c.id) {
                    Some(ci) => r matches Ok((n, ino)) && n@ == c && ino == ci,
                    None => fails_with(r, FsErrno::Io, "inode missing"@),
                },
            },
        },
{
    let parent_id = match snapshot.id_for_ino(parent) {
        Some(id) => id,
        None => {
            return Err(FsError::new(FsErrno::NotFound, "parent not found"));
        },
    };
    let node = match snapshot.lookup_child(parent_id, name) {
        Some(n) => n,
        None => {
            return Err(FsError::new(FsErrno::NotFound, "entry not found"));
        },
    };
    match snapshot.ino_for_id(node.id.as_str()) {
        Some(ino) => Ok((node.copy(), ino)),
        None => Err(FsError::new(FsErrno::Io, "inode missing")),
    }
}

/// The id of the file with inode `ino`, for an open, a read or a truncate.
pub fn file_for_ino(snapshot: &FsSnapshot, ino: u64) -> (r: Result<String, FsError>)
    ensures
        match node_at_ino(snapshot@.nodes, ino) {
            None => fails_with(r, FsErrno::NotFound, "file not found"@),
            Some(n) => if n.kind != NodeKind::File {
                fails_with(r, FsErrno::IsDir, "not a regular file"@)
            } else {
                r matches Ok(id) && id@ == n.id
            },
        },
{
    match snapshot.node_by_ino(ino) {
        None => Err(FsError::new(FsErrno::NotFound, "file not found")),
        Some(node) => {
            if node.kind != NodeKind::File {
                Err(FsError::new(FsErrno::IsDir, "not a regular file"))
            } else {
                Ok(node.id.clone())
            }
        },
    }
}

/// One entry of a directory listing.
#[derive(Debug, Clone)]
pub struct DirEntry {
    pub ino: u64,
    pub kind: NodeKind,
    pub name: String,
}

pub struct DirEntryView {
    pub ino: u64,
    pub kind: NodeKind,
    pub name: Seq<char>,
}

impl View for DirEntry {
    type V = DirEntryView;

    open spec fn view(&self) -> DirEntryView {
        DirEntryView { ino: self.ino, kind: self.kind, name: self.name@ }
    }
}

pub open spec fn dir_entries_view(v: Seq<DirEntry>) -> Seq<DirEntryView> {
    v.map_values(|d: DirEntry| d@)
}

/// The inode number of the node named `id`.
pub open spec fn ino_of(nodes: Seq<NodeView>, id: Seq<char>) -> Option<u64> {
    match index_of_id(nodes, id) {
        Some(i) => Some((i + 1) as u64),
        None => None,
    }
}

/// The listing of the directory with inode `ino`: `.`, `..` (the parent, or the root for
/// the root) and then each live entry in name order.
pub fn dir_entries(snapshot: &FsSnapshot, ino: u64) -> (r: Result<Vec<DirEntry>, FsError>)
    ensures
        match node_at_ino(snapshot@.nodes, ino) {
            None => fails_with(r, FsErrno::NotFound, "directory not found"@),
            Some(n) => if n.kind != NodeKind::Directory {
                fails_with(r, FsErrno::NotDir, "not a directory"@)
            } else {
                r matches Ok(v) && exists|s: Seq<NodeView>| {
                    let d = dir_entries_view(v@);
                    &&& #[trigger] is_listing(snapshot@.nodes, n.id, s)
                    &&& d.len() == s.len() + 2
                    &&& d[0] == (DirEntryView { ino, kind: NodeKind::Directory, name: "."@ })
                    &&& d[1] == (DirEntryView {
                        ino: match n.parent {
                            Some(p) => match ino_of(snapshot@.nodes, p) {
                                Some(pi) => pi,
                                None => ROOT_INO,
                            },
                            None => ROOT_INO,
                        },
                        kind: NodeKind::Directory,
                        name: ".."@,
                    })
                    &&& forall|k: int|
                        0 <= k < s.len() ==> ino_of(snapshot@.nodes, s[k].id) == Some(d[k + 2].ino)
                            && d[k + 2].kind == s[k].kind && d[k + 2].name == s[k].name
                }
            },
        },
{
    let node = match snapshot.node_by_ino(ino) {
        Some(n) => n,
        None => {
            return Err(FsError::new(FsErrno::NotFound, "directory not found"));
        },
    };
    if node.kind != NodeKind::Directory {
        return Err(FsError::new(FsErrno::NotDir, "not a directory"));
    }
    let parent_ino = match &node.parent {
        Some(p) => match snapshot.ino_for_id(p.as_str()) {
            Some(pi) => pi,
            None => ROOT_INO,
        },
        None => ROOT_INO,
    };
    let children = snapshot.children_of(node.id.as_str());
    let ghost s = node_refs_view(children@);
    let ghost nodes = snapshot@.nodes;
    let mut listed: Vec<DirEntry> = Vec::new();
    let mut k: usize = 0;
    while k < children.len()
        invariant
            s == node_refs_view(children@),
            nodes == snapshot@.nodes,
            is_listing(nodes, node@.id, s),
            k <= s.len(),
            listed@.len() == k,
            forall|j: int| 0 <= j < k ==> ino_of(nodes, s[j].id) == Some(#[trigger] listed@[j]@.ino),
            forall|j: int| 0 <= j < k ==> (#[trigger] listed@[j])@.kind == s[j].kind,
            forall|j: int| 0 <= j < k ==> (#[trigger] listed@[j])@.name == s[j].name,
        decreases s.len() - k,
    {
        let child = children[k];
        let ci = match snapshot.ino_for_id(child.id.as_str()) {
            Some(ci) => ci,
            None => {
                proof {
                    assert(crate::metadata::is_some_child(nodes, node@.id, s[k as int]));
                    let w = choose|w: int| crate::metadata::is_child_at(nodes, w, node@.id) && s[k as int] == nodes[w];
                    assert(crate::metadata::has_id(nodes, w, s[k as int].id));
                }
                return Err(FsError::new(FsErrno::Io, "inode missing"));
            },
        };
        let ghost before = listed@;
        let entry = DirEntry { ino: ci, kind: child.kind, name: child.name.clone() };
        listed.push(entry);
        assert forall|j: int| 0 <= j < k + 1 implies ino_of(nodes, s[j].id) == Some(
            #[trigger] listed@[j]@.ino,
        ) && listed@[j]@.kind == s[j].kind && listed@[j]@.name == s[j].name by {
            if j < k {
                assert(listed@[j] == before[j]);
                assert(ino_of(nodes, s[j].id) == Some(before[j]@.ino));
            }
        }
        k = k + 1;
    }
    let mut entries: Vec<DirEntry> = Vec::new();
    entries.push(DirEntry { ino, kind: NodeKind::Directory, name: String::from_str(".") });
    entries.push(DirEntry { ino: parent_ino, kind: NodeKind::Directory, name: String::from_str("..") });
    let ghost head = entries@;
    let ghost lv = listed@;
    entries.append(&mut listed);
    assert(entries@ == head + lv);
    let ghost d = dir_entries_view(entries@);
    assert(d[0] == entries@[0]@);
    assert(d[1] == entries@[1]@);
    assert forall|j: int| 0 <= j < s.len() implies ino_of(nodes, s[j].id) == Some(d[j + 2].ino) && d[j + 2].kind
        == s[j].kind && d[j + 2].name == s[j].name by {
        assert(d[j + 2] == lv[j]@);
    }
    Ok(entries)
}

} // verus!
