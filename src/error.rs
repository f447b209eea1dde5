//! What can go wrong while a package is put together.
use vstd::prelude::*;

verus! {

/// An error that ends a packing run.
#[derive(Debug, Clone, PartialEq, Eq)]
pub enum PackError {
    /// A collected file does not lie under the base that its target is taken relative to.
    OutsideBase { path: String, base: String },
    /// The build command has unbalanced quotes or a trailing escape.
    InvalidBuildCommand { command: String },
    /// The build command holds no word.
    EmptyBuildCommand,
    /// The build reported no file that it produced.
    NoCompiledFiles,
    /// No catalog entry is the project's metadata file.
    MissingMetadata,
}

} // verus!
