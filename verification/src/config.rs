//! Scan configuration: the extension allow/deny sets, the folder deny set and
//! the display-path mode.  The caller supplies a fully validated configuration;
//! the sets are plain byte strings (extensions include their leading dot and
//! are expected in lowercase form).

use vstd::prelude::*;

verus! {

/// Immutable configuration for one scan.
///
/// `valid_extensions` is the allow set (each entry a lowercase extension with
/// leading dot, e.g. `.py`), `skip_extensions` the deny set, `skip_folders`
/// the set of folder names whose subtrees are pruned from the traversal, and
/// `use_full_path` selects whether display paths are the walked paths or
/// root-relative paths.
pub struct ScanConfig {
    pub valid_extensions: Vec<Vec<u8>>,
    pub skip_extensions: Vec<Vec<u8>>,
    pub skip_folders: Vec<Vec<u8>>,
    pub use_full_path: bool,
}

impl ScanConfig {
    /// The allow set as a mathematical sequence of byte strings.
    pub open spec fn valid(&self) -> Seq<Seq<u8>> {
        self.valid_extensions.deep_view()
    }

    /// The deny set as a mathematical sequence of byte strings.
    pub open spec fn skip(&self) -> Seq<Seq<u8>> {
        self.skip_extensions.deep_view()
    }

    /// The pruned folder names as a mathematical sequence of byte strings.
    pub open spec fn folders(&self) -> Seq<Seq<u8>> {
        self.skip_folders.deep_view()
    }
}

} // verus!
