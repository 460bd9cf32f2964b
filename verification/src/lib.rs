//! A filesystem over replicated bin storage: the metadata log and its replay, chunked file
//! contents, replica placement and repair, per-key logs, and the social front end's rules,
//! each with its contract.
pub mod bin_log;
pub mod chunks;
pub mod errno;
pub mod eval;
pub mod fuse_ops;
pub mod keeper;
pub mod metadata;
pub mod placement;
pub mod service;
pub mod sorting;
pub mod text;
pub mod timeline;

pub use chunks::{ChunkRef, ChunkStore, FileManifest};
pub use metadata::{FsOp, FsSnapshot, Node, NodeKind, ROOT_ID, ROOT_INO};
pub use errno::FsErrno;
pub use service::{BinFsConfig, FsError, FsResult};
