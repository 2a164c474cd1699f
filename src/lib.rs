//! A content-addressed object store and staging index in the style of git:
//! byte-exact object, tree, commit and index encodings, the materialisation of
//! a tree hierarchy from a flat index, and the branch / HEAD state machine.
//! File-system access lives outside this crate; everything here works on values.

pub mod bytes;
pub mod commit;
pub mod error;
pub mod hash;
pub mod index;
pub mod mode;
pub mod object;
pub mod refs;
pub mod sort;
pub mod tree;
pub mod zip;
