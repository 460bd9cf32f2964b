# binfs

A small filesystem over replicated bin storage, with its decisions proved by Verus.

Metadata is an append-only log of operations (`mkdir`, create, commit, unlink, rmdir);
replaying it gives the tree. File contents are cut into fixed-size chunks, each stored
under its BLAKE3 hash in one of several data bins, base64-encoded. Below the filesystem,
every bin is replicated on two backends chosen on a hash ring, and every key is kept as a
log of clocked entries; a keeper repairs replicas when backends leave or come back.

## Layout

- `src/` — the verified library.
  - `metadata.rs`: the operation log, its replay, and the snapshot queries.
  - `chunks.rs`: chunking, manifests, and the check of what is read back.
  - `service.rs`, `fuse_ops.rs`: what each filesystem request answers.
  - `placement.rs`, `keeper.rs`, `bin_log.rs`: replica placement, the keeper's repairs,
    and the per-key logs of a replicated bin.
  - `timeline.rs`: the social front end's rules (tribbles, users, follows).
  - `text.rs`, `sorting.rs`, `errno.rs`, `eval.rs`: helpers.
- `tests/` — tests of the library on concrete values.
- `app/` — the program around it: RPC storage, the async service, the FUSE mount and the
  benchmark harness.
