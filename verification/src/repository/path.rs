//! The root of the analysed tree.

use crate::segment::{SegmentPath, SegmentView};
use vstd::prelude::*;

verus! {

/// Why a text does not name the root of a tree.
#[derive(Debug)]
pub enum RepositoryPathFromStringError {
    /// The path could not be made canonical: the cause, then the path as
    /// it was given.
    IoError(String, String),
}

/// The canonical, absolute path of the directory under analysis. Every other
/// path is placed relative to it.
#[derive(Debug)]
pub struct RepositoryPath(SegmentPath);

impl View for RepositoryPath {
    type V = Seq<SegmentView>;

    closed spec fn view(&self) -> Seq<SegmentView> {
        self.0@
    }
}

impl Clone for RepositoryPath {
    fn clone(&self) -> (r: Self)
        ensures
            r@ == self@,
    {
        RepositoryPath(self.0.clone())
    }
}

impl RepositoryPath {
    /// The root at the canonical path `canonical`.
    pub fn new(canonical: SegmentPath) -> (r: RepositoryPath)
        ensures
            r@ == canonical@,
    {
        RepositoryPath(canonical)
    }

    /// The root named by `value`, given what making `value` canonical came
    /// to: the canonical path, or the cause of the failure.
    pub fn try_from(value: String, canonical: Result<SegmentPath, String>) -> (r: Result<
        RepositoryPath,
        RepositoryPathFromStringError,
    >)
        ensures
            match canonical {
                Ok(path) => r matches Ok(root) && root@ == path@,
                Err(cause) => r matches Err(RepositoryPathFromStringError::IoError(c, v)) && c@
                    == cause@ && v@ == value@,
            },
    {
        match canonical {
            Ok(path) => Ok(RepositoryPath(path)),
            Err(cause) => Err(RepositoryPathFromStringError::IoError(cause, value)),
        }
    }

    /// The path of the root.
    pub fn as_path(&self) -> (p: &SegmentPath)
        ensures
            p@ == self@,
    {
        &self.0
    }

    /// The absolute path of what lies at `relative` under the root.
    pub fn resolve(&self, relative: &SegmentPath) -> (p: SegmentPath)
        ensures
            p@ == self@ + relative@,
    {
        self.0.join(relative)
    }

    /// The path of the root.
    pub fn into_path(self) -> (p: SegmentPath)
        ensures
            p@ == self@,
    {
        self.0
    }
}

} // verus!
