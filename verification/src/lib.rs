//! An in-memory, navigable model of a filesystem subtree.
//!
//! The tree is a recursive directory structure whose entries are addressed
//! by locations: one index per level. It is kept consistent under
//! structural change, regenerates the label tree that a renderer draws
//! after every such change, and moves a selection through the visible part
//! of that label tree. It touches no disk: a change on disk is made first,
//! by whoever uses the tree, and the tree is told of it afterwards.
//!
//! - [`path`]: absolute paths as sequences of names.
//! - [`dir`]: files, directories and entries, with what they are as values,
//!   and their change by location and by path.
//! - [`projection`]: the label tree of a directory, whole or filtered.
//! - [`state`]: the selection and the expanded set, held by
//!   `tui_tree_widget`, and what visible means.
//! - [`files`]: a root directory together with its current label tree.
//! - [`filetree`]: the navigable tree.
//! - [`command`]: the requests and keys that the tree takes.
//! - [`dir_lemmas`], [`projection_lemmas`], [`state_lemmas`], [`theorems`]:
//!   what is proved of these.

pub mod command;
pub mod dir;
pub mod dir_lemmas;
pub mod error;
pub mod files;
pub mod filetree;
pub mod path;
pub mod projection;
pub mod projection_lemmas;
pub mod state;
pub mod state_lemmas;
pub mod theorems;
