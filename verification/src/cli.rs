//! Traversal configuration: which entries the tree builder keeps and how deep
//! it descends.

use vstd::prelude::*;

verus! {

/// Structured export formats the tree can be written in.
#[derive(Debug, Clone, PartialEq, Eq, Structural)]
pub enum Format {
    Json,
}

/// Errors of the tree builder and its consumers.
///
/// `PathNotFound` and `InvalidConfig` are fatal and raised before or at the
/// start of a walk; `EntryReadError` is recoverable (the entry is skipped);
/// `ExportWriteError` is raised when writing an export file fails.
#[derive(Debug, Clone, Copy, PartialEq, Eq, Structural)]
pub enum TreeError {
    PathNotFound,
    InvalidConfig,
    EntryReadError,
    ExportWriteError,
}

/// Immutable traversal and filter options.
///
/// `depth` counts the root's immediate children as depth 1; `None` means
/// unbounded. `all` makes both hidden and ignored entries appear. `dirs_only`
/// and `files_only` are mutually exclusive with each other and with `all`.
#[derive(Debug, Clone)]
pub struct Cli {
    /// Path to the directory to search; `None` means the current working directory.
    pub path: Option<String>,
    /// Maximum depth to search.
    pub depth: Option<usize>,
    /// Show all entries, hidden and ignored alike.
    pub all: bool,
    /// Show only directories.
    pub dirs_only: bool,
    /// Show only files.
    pub files_only: bool,
    /// Show entries excluded by version-control ignore rules.
    pub ignored: bool,
    /// Show hidden entries (names starting with a dot).
    pub hidden: bool,
    /// Export the tree to a file in this format.
    pub export: Option<Format>,
}

impl Cli {
    /// A configuration is valid when the depth bound, if any, is positive and
    /// the type filters conflict neither with each other nor with `all`.
    pub open spec fn spec_valid(self) -> bool {
        &&& (self.depth matches Some(d) ==> d > 0)
        &&& !(self.dirs_only && self.files_only)
        &&& !(self.all && (self.dirs_only || self.files_only))
    }

    /// Checks the configuration before any traversal; rejects a non-positive
    /// depth bound and conflicting type filters with `InvalidConfig`.
    pub fn validate(&self) -> (r: Result<(), TreeError>)
        ensures
            r is Ok <==> self.spec_valid(),
            r is Err ==> r == Err::<(), TreeError>(TreeError::InvalidConfig),
    {
        if let Some(d) = self.depth {
            if d == 0 {
                return Err(TreeError::InvalidConfig);
            }
        }
        if self.dirs_only && self.files_only {
            return Err(TreeError::InvalidConfig);
        }
        if self.all && (self.dirs_only || self.files_only) {
            return Err(TreeError::InvalidConfig);
        }
        Ok(())
    }
}

impl Default for Cli {
    /// The default configuration: walk the current directory, unbounded depth,
    /// no filters relaxed.
    fn default() -> (r: Self)
        ensures
            r.path is None,
            r.depth is None,
            !r.all,
            !r.dirs_only,
            !r.files_only,
            !r.ignored,
            !r.hidden,
            r.export is None,
            r.spec_valid(),
    {
        Cli {
            path: None,
            depth: None,
            all: false,
            dirs_only: false,
            files_only: false,
            ignored: false,
            hidden: false,
            export: None,
        }
    }
}

} // verus!
