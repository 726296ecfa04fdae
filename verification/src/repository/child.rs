//! Paths relative to the root, and the module each belongs to.

use crate::file_path::{file_name_of, FilePath};
use crate::import_path::ImportPath;
use crate::module::{Module, ModuleFromComponentError};
use crate::render::Render;
use crate::repository::file::RepositoryFile;
use crate::repository::path::RepositoryPath;
use crate::segment::{
    all_plain_names, is_prefix_of, join_text, lemma_render_joined, render_segments, segment_text,
    PathSegment, SegmentPath, SegmentView,
};
use crate::text::str_eq;
use vstd::prelude::*;
use vstd::std_specs::cmp::PartialEqSpecImpl;

verus! {

/// The file name of a module's index.
pub open spec fn index_file_name() -> Seq<char> {
    seq!['i', 'n', 'd', 'e', 'x', '.', 't', 's']
}

/// The file name of a module's testing entry point.
pub open spec fn testing_file_name() -> Seq<char> {
    seq!['t', 'e', 's', 't', 'i', 'n', 'g', '.', 't', 's']
}

/// A path names a barrel file: its file name is exactly that of an index or
/// of a testing entry point.
pub open spec fn is_barrel_path(path: Seq<SegmentView>) -> bool {
    match file_name_of(path) {
        Some(name) => name == index_file_name() || name == testing_file_name(),
        None => false,
    }
}

/// `path` relative to `root`: what follows `root` in it, where `path` lies
/// under `root`.
pub open spec fn relative_to(root: Seq<SegmentView>, path: Seq<SegmentView>) -> Option<
    Seq<SegmentView>,
> {
    if is_prefix_of(root, path) {
        Some(path.skip(root.len() as int))
    } else {
        None
    }
}

/// The name of the module a relative path belongs to: its first segment,
/// where that is a plain name.
pub open spec fn module_name_of(path: Seq<SegmentView>) -> Option<Seq<char>> {
    if path.len() == 0 {
        None
    } else {
        match path[0] {
            SegmentView::Normal(name) => Some(name),
            _ => None,
        }
    }
}

/// `e` says why the relative path `path` has no module: the path is empty, or
/// its first segment is not a plain name.
pub open spec fn is_module_error(path: Seq<SegmentView>, e: RepositoryChildPathModuleError) -> bool {
    if path.len() == 0 {
        e matches RepositoryChildPathModuleError::CouldNotGetModule(p) && p@ == render_segments(
            path,
        )
    } else {
        e matches RepositoryChildPathModuleError::ModuleConversionError(
            ModuleFromComponentError::InvalidComponent(t),
        ) && t@ == segment_text(path[0])
    }
}

/// Why a relative path has no module.
#[derive(Debug)]
pub enum RepositoryChildPathModuleError {
    /// The path has no segment; the payload is the printed path.
    CouldNotGetModule(String),
    /// The first segment is not a plain name.
    ModuleConversionError(ModuleFromComponentError),
}

/// Why an import target has no place under the root.
#[derive(Debug)]
pub enum RepositoryChildPathFromImportPathError {
    Path(RepositoryChildPathFromPathError),
}

/// Why a source file has no place under the root.
#[derive(Debug)]
pub enum RepositoryChildPathFromFilePathError {
    Path(RepositoryChildPathFromPathError),
}

/// Why a path has no place under the root.
#[derive(Debug)]
pub enum RepositoryChildPathFromPathError {
    /// The path does not lie under the root; the payload is the printed path.
    ImportOutsideRoot(String),
}

/// Why the file under analysis has no place under the root.
#[derive(Debug)]
pub enum RepositoryChildPathFromRepositoryFileError {
    File(RepositoryChildPathFromImportPathError),
    FilePath(RepositoryChildPathFromFilePathError),
}

/// A path relative to the root of the tree, with the mark of a barrel file.
/// Two such paths are equal where they are printed alike.
#[derive(Debug)]
pub struct RepositoryChildPath {
    path: SegmentPath,
    barrel: bool,
}

impl View for RepositoryChildPath {
    type V = Seq<SegmentView>;

    closed spec fn view(&self) -> Seq<SegmentView> {
        self.path@
    }
}

impl Clone for RepositoryChildPath {
    fn clone(&self) -> (r: Self)
        ensures
            r@ == self@,
    {
        proof {
            use_type_invariant(self);
        }
        RepositoryChildPath { path: self.path.clone(), barrel: self.barrel }
    }
}

impl PartialEq for RepositoryChildPath {
    fn eq(&self, other: &RepositoryChildPath) -> (r: bool) {
        self.path.render() == other.path.render()
    }
}

impl Eq for RepositoryChildPath {

}

impl PartialEqSpecImpl for RepositoryChildPath {
    open spec fn obeys_eq_spec() -> bool {
        true
    }

    open spec fn eq_spec(&self, other: &RepositoryChildPath) -> bool {
        render_segments(self@) == render_segments(other@)
    }
}

impl Render for RepositoryChildPath {
    open spec fn rendered(&self) -> Seq<char> {
        render_segments(self@)
    }

    fn render(&self) -> (s: String) {
        self.path.render()
    }
}

impl RepositoryChildPath {
    #[verifier::type_invariant]
    spec fn marked_as_named(self) -> bool {
        self.barrel == is_barrel_path(self.path@)
    }

    fn new(path: SegmentPath, barrel: bool) -> (r: Self)
        requires
            barrel == is_barrel_path(path@),
        ensures
            r@ == path@,
    {
        Self { path, barrel }
    }

    /// Places an import target under the root.
    pub fn from_import_path(import_path: &ImportPath, repository_path: &RepositoryPath) -> (r:
        Result<RepositoryChildPath, RepositoryChildPathFromImportPathError>)
        ensures
            match relative_to(repository_path@, import_path@) {
                Some(rel) => r matches Ok(child) && child@ == rel,
                None => r matches Err(
                    RepositoryChildPathFromImportPathError::Path(
                        RepositoryChildPathFromPathError::ImportOutsideRoot(p),
                    ),
                ) && p@ == render_segments(import_path@),
            },
    {
        match RepositoryChildPath::from_path(import_path.as_path(), repository_path) {
            Ok(child) => Ok(child),
            Err(e) => Err(RepositoryChildPathFromImportPathError::Path(e)),
        }
    }

    /// Places the file under analysis under its own root.
    pub fn from_repository_file(repository_file: &RepositoryFile) -> (r: Result<
        RepositoryChildPath,
        RepositoryChildPathFromRepositoryFileError,
    >)
        ensures
            match relative_to(repository_file.base_path()@, repository_file.file_path()@) {
                Some(rel) => r matches Ok(child) && child@ == rel,
                None => r matches Err(
                    RepositoryChildPathFromRepositoryFileError::FilePath(
                        RepositoryChildPathFromFilePathError::Path(
                            RepositoryChildPathFromPathError::ImportOutsideRoot(p),
                        ),
                    ),
                ) && p@ == render_segments(repository_file.file_path()@),
            },
    {
        match RepositoryChildPath::from_file_path(
            repository_file.file_path(),
            repository_file.base_path(),
        ) {
            Ok(child) => Ok(child),
            Err(e) => Err(RepositoryChildPathFromRepositoryFileError::FilePath(e)),
        }
    }

    /// Places a source file under the root.
    pub fn from_file_path(file_path: &FilePath, repository_path: &RepositoryPath) -> (r: Result<
        RepositoryChildPath,
        RepositoryChildPathFromFilePathError,
    >)
        ensures
            match relative_to(repository_path@, file_path@) {
                Some(rel) => r matches Ok(child) && child@ == rel,
                None => r matches Err(
                    RepositoryChildPathFromFilePathError::Path(
                        RepositoryChildPathFromPathError::ImportOutsideRoot(p),
                    ),
                ) && p@ == render_segments(file_path@),
            },
    {
        match RepositoryChildPath::from_path(file_path.as_path(), repository_path) {
            Ok(child) => Ok(child),
            Err(e) => Err(RepositoryChildPathFromFilePathError::Path(e)),
        }
    }

    /// Places an absolute path under the root: the result is the path with
    /// the root taken off its front. A path that does not lie under the
    /// root is refused with its printed form.
    pub fn from_path(path: &SegmentPath, repository_path: &RepositoryPath) -> (r: Result<
        RepositoryChildPath,
        RepositoryChildPathFromPathError,
    >)
        ensures
            match relative_to(repository_path@, path@) {
                Some(rel) => r matches Ok(child) && child@ == rel,
                None => r matches Err(RepositoryChildPathFromPathError::ImportOutsideRoot(p)) && p@
                    == render_segments(path@),
            },
    {
        let root = repository_path.as_path();
        if path.starts_with(root) {
            let relative = path.range(root.len(), path.len());
            let barrel = names_barrel(&relative);
            Ok(RepositoryChildPath::new(relative, barrel))
        } else {
            Err(RepositoryChildPathFromPathError::ImportOutsideRoot(path.render()))
        }
    }

    /// Whether this path names a barrel file.
    pub fn is_barrel(&self) -> (r: bool)
        ensures
            r == is_barrel_path(self@),
    {
        proof {
            use_type_invariant(self);
        }
        self.barrel
    }

    /// The module this path belongs to, named by its first segment.
    pub fn module(&self) -> (r: Result<Module, RepositoryChildPathModuleError>)
        ensures
            match module_name_of(self@) {
                Some(name) => r matches Ok(m) && m@ == name,
                None => r matches Err(e) && is_module_error(self@, e),
            },
    {
        if self.path.len() == 0 {
            return Err(RepositoryChildPathModuleError::CouldNotGetModule(self.path.render()));
        }
        match Module::try_from(self.path.segments[0].clone()) {
            Ok(m) => Ok(m),
            Err(e) => Err(RepositoryChildPathModuleError::ModuleConversionError(e)),
        }
    }

    /// The path, relative to the root.
    pub fn as_path(&self) -> (p: &SegmentPath)
        ensures
            p@ == self@,
    {
        &self.path
    }
}

/// Placing a path under the root and resolving the result against the root
/// gives the path back: for every path that lies under the root, the root
/// followed by the path relative to it is the path.
pub proof fn lemma_relative_then_resolved(root: Seq<SegmentView>, path: Seq<SegmentView>)
    requires
        is_prefix_of(root, path),
    ensures
        relative_to(root, path) is Some,
        root + relative_to(root, path)->0 == path,
{
    assert(root + path.skip(root.len() as int) =~= path);
}

/// What a path under the root is printed as is what the root is printed as,
/// joined with what the path relative to the root is printed as, where the
/// relative path is made of plain names.
pub proof fn lemma_relative_then_joined(root: Seq<SegmentView>, path: Seq<SegmentView>)
    requires
        is_prefix_of(root, path),
        root.len() < path.len(),
        all_plain_names(path.skip(root.len() as int)),
    ensures
        join_text(render_segments(root), render_segments(relative_to(root, path)->0))
            == render_segments(path),
{
    lemma_relative_then_resolved(root, path);
    lemma_render_joined(root, path.skip(root.len() as int));
}

/// Only a path under the root has a place relative to it.
pub proof fn lemma_relative_only_under_root(root: Seq<SegmentView>, path: Seq<SegmentView>)
    ensures
        relative_to(root, path) is Some <==> exists|rest: Seq<SegmentView>| root + rest == path,
{
    if is_prefix_of(root, path) {
        lemma_relative_then_resolved(root, path);
    }
    if exists|rest: Seq<SegmentView>| root + rest == path {
        let rest = choose|rest: Seq<SegmentView>| root + rest == path;
        assert((root + rest).subrange(0, root.len() as int) =~= root);
    }
}

/// Whether `path` ends in the file name of a barrel.
pub fn names_barrel(path: &SegmentPath) -> (r: bool)
    ensures
        r == is_barrel_path(path@),
{
    let n = path.len();
    if n == 0 {
        return false;
    }
    match &path.segments[n - 1] {
        PathSegment::Normal(name) => {
            proof {
                reveal_strlit("index.ts");
                reveal_strlit("testing.ts");
                assert("index.ts"@ =~= index_file_name());
                assert("testing.ts"@ =~= testing_file_name());
            }
            str_eq(name.as_str(), "index.ts") || str_eq(name.as_str(), "testing.ts")
        },
        _ => false,
    }
}

} // verus!
