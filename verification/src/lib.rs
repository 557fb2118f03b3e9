//! Copy detection for Pyret submissions: normalisation of source text,
//! winnowed fingerprints, and the analysis of what pairs of submissions share.

pub mod cli;
pub mod error;
pub mod file_io;
pub mod fingerprint;
pub mod index;
pub mod keywords;
pub mod lexer;
pub mod normalize;
pub mod order;
pub mod pair_eq;
pub mod paths;
pub mod phase_i;
pub mod phase_ii;
pub mod phase_iii;
pub mod ratio;
pub mod results;
pub mod scan;
pub mod text;

use crate::fingerprint::Fingerprint;
use vstd::prelude::*;

verus! {

/// A student's submission: one file, or a directory of files.
///
/// `dir_name` is the directory of a submission of several files, and `None` for a
/// submission that is a single file.
#[derive(Debug, PartialEq, Eq, PartialOrd, Ord, Hash, Clone)]
pub struct Sub {
    pub dir_name: Option<String>,
    pub documents: Vec<Doc>,
}

/// A file of a submission. It starts out unprocessed, with its path only, and is processed
/// once: from then on it holds its fingerprints, in the order of their selection.
#[derive(Debug, PartialEq, Eq, PartialOrd, Ord, Hash, Clone)]
pub enum Doc {
    Unprocessed(String),
    Processed(String, Vec<Fingerprint>),
}

impl Doc {
    /// The path of the file.
    pub open spec fn path(self) -> Seq<char> {
        match self {
            Doc::Unprocessed(path) => path@,
            Doc::Processed(path, _) => path@,
        }
    }

    /// The fingerprints of the file; none while it is unprocessed.
    pub open spec fn fingerprints(self) -> Seq<Fingerprint> {
        match self {
            Doc::Unprocessed(_) => Seq::empty(),
            Doc::Processed(_, fingerprints) => fingerprints@,
        }
    }
}

impl Sub {
    /// Whether every document has been processed.
    pub open spec fn processed(self) -> bool {
        forall|i: int| 0 <= i < self.documents@.len() ==> self.documents@[i] is Processed
    }
}

} // verus!
