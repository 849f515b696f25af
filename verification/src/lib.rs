//! Incremental mirroring of a source directory tree into a backup target,
//! driven by a side-by-side metadata index: an ignore-rule language decides
//! what to leave out, a tree diff turns snapshots of the source and the
//! index into an ordered change list, and the change list's applier-facing
//! half says what each change does to the target and to the index.

pub mod apply_indexchanges;
pub mod args;
pub mod config;
pub mod glob;
pub mod indexchanges;
pub mod indexfile;
pub mod laws;
pub mod paths;
pub mod repr_file;
pub mod text;
pub mod update_index;
