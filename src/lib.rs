//! Keeps the version number of a control project in step across its three
//! project files: the control manifest (`version` attribute of the opening
//! `<control` tag), the package descriptor (`"version"` key) and the solution
//! descriptor (`<version>` element, `major.minor` only).
//!
//! Files are read and written by the caller. The library finds the files in a
//! directory tree, locates the version token of each by line, column and
//! length, reads it as a version, and rewrites only that span.
pub mod files;
pub mod locate;
pub mod patch;
pub mod scan;
pub mod text;
pub mod version;

pub use files::{
    FileHandler, ManifestFile, PackageFile, SolutionFile, MANIFEST_FILE_NAME, PACKAGE_FILE_NAME,
    SOLUTION_FILE_NAME,
};
pub use locate::{locate_manifest, locate_package, locate_solution};
pub use patch::{apply_patch, split_lines, Span};
pub use scan::{DirEntry, DirScan, ScanAction, DEFAULT_EXCLUDED_DIR};
pub use version::Version;
