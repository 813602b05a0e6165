//! The status of a Git working tree: which tracked files are modified or
//! deleted, and which paths are not tracked, found by comparing the working
//! tree with the index of the repository.
//!
//! The index is decoded from the bytes of its file ([`index`]). The working
//! tree is handed over as it was read from disk, a directory at a time
//! ([`worktree`]), and compared with the index directory by directory, honouring
//! the ignore files on the way ([`ignores`]). The reports are put together in
//! [`repo_status`].

pub mod directories;
pub mod direntry;
pub mod dirstat;
pub mod encoding;
pub mod error;
pub mod ignores;
pub mod index;
pub mod laws;
pub mod names;
pub mod repo_status;
pub mod sorting;
pub mod status;
pub mod tree;
pub mod worktree;

pub use direntry::DirEntry;
pub use error::StatusError;
pub use index::Index;
pub use repo_status::RepoStatus;
pub use tree::TreeDiff;
pub use worktree::WorkTree;
