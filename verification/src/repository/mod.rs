//! The tree under analysis.

pub mod child;
pub mod file;
pub mod path;

use crate::module_mapping::ModuleMappings;
use crate::repository::file::RepositoryFileFromEntryError;
use crate::repository::path::{RepositoryPath, RepositoryPathFromStringError};
use crate::text::str_eq;
use vstd::prelude::*;

verus! {

/// Why a directory entry yields no file of the tree.
#[derive(Debug)]
pub enum RepositoryFilesError {
    /// Walking the tree failed at this entry; the payload is the cause.
    CannotScanFiles(String),
    /// The entry is no source file.
    CannotAnalyzeFile(RepositoryFileFromEntryError),
}

/// Why a text does not name a tree.
#[derive(Debug)]
pub enum RepositoryFromStringError {
    CouldNotCreateRepositoryPath(RepositoryPathFromStringError),
}

/// The names held by a sequence of strings.
pub open spec fn folder_names(v: Seq<String>) -> Seq<Seq<char>> {
    Seq::new(v.len(), |i: int| v[i]@)
}

/// The tree under analysis: its root, the alias rules that apply to its
/// imports, and the names of the folders that are left out of it.
#[derive(Debug)]
pub struct Repository {
    path: RepositoryPath,
    mappings: ModuleMappings,
    skip_folders: Vec<String>,
}

impl Clone for Repository {
    fn clone(&self) -> (r: Self)
        ensures
            r.path()@ == self.path()@,
            r.mappings()@ == self.mappings()@,
            folder_names(r.skip_folders()@) == folder_names(self.skip_folders()@),
    {
        let r = Repository {
            path: self.path.clone(),
            mappings: self.mappings.clone(),
            skip_folders: self.skip_folders.clone(),
        };
        assert(folder_names(r.skip_folders()@) =~= folder_names(self.skip_folders()@));
        r
    }
}

impl Repository {
    /// The tree at `path`.
    pub fn new(path: RepositoryPath, mappings: ModuleMappings, skip_folders: Vec<String>) -> (r:
        Repository)
        ensures
            r.path()@ == path@,
            r.mappings()@ == mappings@,
            r.skip_folders() == skip_folders,
    {
        Repository { path, mappings, skip_folders }
    }

    /// The tree named by a text, given what making the text a root came to.
    /// No alias rule applies and no folder is left out.
    pub fn try_from(path: Result<RepositoryPath, RepositoryPathFromStringError>) -> (r: Result<
        Repository,
        RepositoryFromStringError,
    >)
        ensures
            match path {
                Ok(root) => r matches Ok(repository) && repository.path()@ == root@
                    && repository.mappings()@.len() == 0 && repository.skip_folders()@.len() == 0,
                Err(e) => r matches Err(RepositoryFromStringError::CouldNotCreateRepositoryPath(c))
                    && c == e,
            },
    {
        match path {
            Ok(root) => Ok(
                Repository { path: root, mappings: ModuleMappings::new(), skip_folders: Vec::new() },
            ),
            Err(e) => Err(RepositoryFromStringError::CouldNotCreateRepositoryPath(e)),
        }
    }

    /// The root of the tree.
    pub closed spec fn path_spec(&self) -> &RepositoryPath {
        &self.path
    }

    /// The root of the tree.
    #[verifier::when_used_as_spec(path_spec)]
    pub fn path(&self) -> (p: &RepositoryPath)
        ensures
            p == self.path(),
    {
        &self.path
    }

    /// The alias rules that apply to the imports of the tree.
    pub closed spec fn mappings_spec(&self) -> &ModuleMappings {
        &self.mappings
    }

    /// The alias rules that apply to the imports of the tree.
    #[verifier::when_used_as_spec(mappings_spec)]
    pub fn mappings(&self) -> (m: &ModuleMappings)
        ensures
            m == self.mappings(),
    {
        &self.mappings
    }

    /// The names of the folders that are left out of the tree.
    pub closed spec fn skip_folders_spec(&self) -> &Vec<String> {
        &self.skip_folders
    }

    /// The names of the folders that are left out of the tree.
    #[verifier::when_used_as_spec(skip_folders_spec)]
    pub fn skip_folders(&self) -> (f: &Vec<String>)
        ensures
            f == self.skip_folders(),
    {
        &self.skip_folders
    }

    /// Whether the entry named `entry_name` is left out of the tree, with all
    /// that lies under it: it is, where its name is one of the folder names
    /// to leave out.
    pub fn skips(&self, entry_name: &str) -> (r: bool)
        ensures
            r == folder_names(self.skip_folders()@).contains(entry_name@),
    {
        let mut i: usize = 0;
        while i < self.skip_folders.len()
            invariant
                i <= self.skip_folders@.len(),
                forall|k: int| 0 <= k < i ==> self.skip_folders@[k]@ != entry_name@,
            decreases self.skip_folders@.len() - i,
        {
            if str_eq(self.skip_folders[i].as_str(), entry_name) {
                assert(folder_names(self.skip_folders()@)[i as int] == entry_name@);
                return true;
            }
            i += 1;
        }
        false
    }
}

} // verus!
