//! What can go wrong with the input.

use vstd::prelude::*;

verus! {

/// Why an input is refused.
#[derive(Debug, PartialEq, Eq, Clone, Copy)]
pub enum Error {
    /// The directory of content to ignore holds no `.arr` file.
    NoIgnoreFiles,
    /// The directory of submissions holds no `.arr` file, and each file was to be a
    /// submission.
    NoArrFiles,
    /// The directory of submissions holds no directory, and each directory was to be a
    /// submission.
    NoSubDirs,
    /// The threshold is no share of a whole: it is not between 0 and 1.
    ThresholdOutOfRange,
}

} // verus!
