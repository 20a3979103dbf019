//! Verified core of a source-bundling tool.
//!
//! The library scans a directory listing for files whose extensions belong to
//! a configurable allow set (minus a deny set), prunes entries that lie under
//! skipped folder names, computes each selected file's display path, restores
//! scan order after parallel content loading, and renders the final
//! plain-text report.  All path and content handling is done on raw bytes.
//!
//! Filesystem traversal, parallel reads and command-line parsing are not part
//! of the library; a thin binary drives them and hands plain values in.

pub mod config;
pub mod filter;
pub mod loader;
pub mod report;
pub mod scanner;
