//! One source file of the tree and the imports written in it.

use crate::dependency::chain::names_of;
use crate::file_parent_path::{parent_of, FileParentPath};
use crate::file_path::{FilePath, FilePathContentsError, FilePathFromEntryError};
use crate::import_path::{
    first_resolved, min_len, resolution_candidates, ImportPath, ImportPathFromImportStringError,
};
use crate::module::Module;
use crate::module_mapping::{rewrite_with, ModuleMappings};
use crate::pattern::{regex_accepts, regex_first_group, text_of, Pattern};
use crate::repository::child::{
    is_module_error, module_name_of, relative_to, RepositoryChildPath,
    RepositoryChildPathFromFilePathError, RepositoryChildPathFromPathError,
    RepositoryChildPathModuleError,
};
use crate::repository::path::RepositoryPath;
use crate::segment::{join_text, render_segments, SegmentPath, SegmentView};
use vstd::prelude::*;
use vstd::string::*;

verus! {

/// The pattern of an import statement: the keyword, a list of names in
/// braces, `from`, and in single quotes a path that begins with a dot, which
/// is the first group; a semicolon ends the statement.
pub const IMPORT_PATTERN: &'static str = "import\\s*\\{[^}]*\\}\\s*from\\s*'(\\.[^']+)';";

/// The path that the import statement in `line` names, once the alias rules
/// `rules` have been applied to the line; nothing where the line holds no
/// import statement.
pub open spec fn import_literal(rules: Seq<(Seq<char>, Seq<char>)>, line: Seq<char>) -> Option<
    Seq<char>,
> {
    regex_first_group(IMPORT_PATTERN@, rewrite_with(rules, line))
}

/// Why no matcher for import statements was made.
#[derive(Debug)]
pub enum ImportMatcherError {
    /// The pattern of an import statement was refused.
    InvalidPattern,
}

/// The matcher for import statements: [`IMPORT_PATTERN`] in compiled form.
/// It is made once and shared by all who read files.
#[derive(Debug)]
pub struct ImportMatcher {
    pattern: Pattern,
}

impl ImportMatcher {
    #[verifier::type_invariant]
    spec fn made_of_import_pattern(self) -> bool {
        self.pattern@ == IMPORT_PATTERN@
    }

    /// Compiles the pattern of an import statement. That fails exactly if the
    /// pattern is refused.
    pub fn new() -> (r: Result<ImportMatcher, ImportMatcherError>)
        ensures
            r is Ok <==> regex_accepts(IMPORT_PATTERN@),
    {
        match Pattern::compile(IMPORT_PATTERN) {
            Ok(pattern) => Ok(ImportMatcher { pattern }),
            Err(_) => Err(ImportMatcherError::InvalidPattern),
        }
    }

    /// The path that the import statement in `line` names; nothing where the
    /// line holds no import statement.
    pub fn literal(&self, line: &str) -> (r: Option<String>)
        ensures
            text_of(r) == regex_first_group(IMPORT_PATTERN@, line@),
    {
        proof {
            use_type_invariant(self);
        }
        self.pattern.first_group(line)
    }
}

/// The texts that are present in `found`, in order.
pub open spec fn present(found: Seq<Option<Seq<char>>>) -> Seq<Seq<char>>
    decreases found.len(),
{
    if found.len() == 0 {
        Seq::empty()
    } else {
        match found.last() {
            Some(text) => present(found.drop_last()).push(text),
            None => present(found.drop_last()),
        }
    }
}

/// The paths that the import statements in `lines` name, in order.
pub open spec fn import_literals(rules: Seq<(Seq<char>, Seq<char>)>, lines: Seq<Seq<char>>) -> Seq<
    Seq<char>,
> {
    present(Seq::new(lines.len(), |i: int| import_literal(rules, lines[i])))
}

/// The index of the candidate that an import resolves to, given what the
/// file system made of each candidate.
pub open spec fn resolution(literal: Seq<char>, resolved: Seq<Option<SegmentPath>>) -> Option<int> {
    first_resolved(resolved, min_len(resolution_candidates(literal).len(), resolved.len()))
}

/// The views of the texts of `found`.
pub open spec fn texts_of(found: Seq<Option<String>>) -> Seq<Option<Seq<char>>> {
    Seq::new(
        found.len(),
        |i: int|
            match found[i] {
                Some(s) => Some(s@),
                None => None,
            },
    )
}

/// The texts that are present in `found`, in order.
pub fn collect_present(found: Vec<Option<String>>) -> (r: Vec<String>)
    ensures
        names_of(r@) == present(texts_of(found@)),
{
    let mut out: Vec<String> = Vec::new();
    let ghost all = found@;
    assert(texts_of(all).take(0) =~= Seq::<Option<Seq<char>>>::empty());
    assert(names_of(out@) =~= present(texts_of(all).take(0)));
    for item in it: found
        invariant
            it.seq() == all,
            names_of(out@) == present(texts_of(all).take(it.index() as int)),
    {
        let ghost before = names_of(out@);
        proof {
            let upto = texts_of(all).take(it.index() + 1);
            assert(upto.drop_last() =~= texts_of(all).take(it.index() as int));
            assert(upto.last() == texts_of(all)[it.index() as int]);
        }
        match item {
            Some(text) => {
                out.push(text);
                assert(names_of(out@) =~= before.push(text@));
            },
            None => {},
        }
    }
    assert(texts_of(all).take(all.len() as int) =~= texts_of(all));
    out
}

/// Why a directory entry is not a file of the tree.
#[derive(Debug)]
pub enum RepositoryFileFromEntryError {
    FilePathError(FilePathFromEntryError),
}

/// Why a file of the tree has no module.
#[derive(Debug)]
pub enum RepositoryFileModuleError {
    Module(RepositoryChildPathModuleError),
    FilePath(RepositoryChildPathFromFilePathError),
}

/// Why the imports of a file could not be had.
#[derive(Debug)]
pub enum RepositoryFileResolveImportsError {
    /// Reading a line failed: the cause, then the printed path of the file.
    Io(String, String),
    /// An import names no file.
    ParseImportPath(ImportPathFromImportStringError, FilePath),
    /// The file could not be opened.
    CannotGetContents(FilePathContentsError),
}

/// One source file of the tree: its path, the root it was found under, and
/// the alias rules that apply to its imports.
#[derive(Debug)]
pub struct RepositoryFile {
    file_path: FilePath,
    base_path: RepositoryPath,
    import_mappings: ModuleMappings,
}

impl RepositoryFile {
    /// The file at `file_path`, found under `base_path`.
    pub fn new(file_path: FilePath, base_path: &RepositoryPath, import_mappings: ModuleMappings) -> (r:
        RepositoryFile)
        ensures
            r.file_path()@ == file_path@,
            r.base_path()@ == base_path@,
            r.import_mappings()@ == import_mappings@,
    {
        RepositoryFile { file_path, base_path: base_path.clone(), import_mappings }
    }

    /// The file found at a directory entry, or the reason the entry is no
    /// source file.
    pub fn try_from_entry(
        entry: Result<FilePath, FilePathFromEntryError>,
        base_path: &RepositoryPath,
        import_mappings: ModuleMappings,
    ) -> (r: Result<RepositoryFile, RepositoryFileFromEntryError>)
        ensures
            match entry {
                Ok(path) => r matches Ok(file) && file.file_path()@ == path@ && file.base_path()@
                    == base_path@ && file.import_mappings()@ == import_mappings@,
                Err(e) => r matches Err(RepositoryFileFromEntryError::FilePathError(inner))
                    && inner == e,
            },
    {
        match entry {
            Ok(file_path) => Ok(RepositoryFile::new(file_path, base_path, import_mappings)),
            Err(e) => Err(RepositoryFileFromEntryError::FilePathError(e)),
        }
    }

    /// The path of the file.
    pub closed spec fn file_path_spec(&self) -> &FilePath {
        &self.file_path
    }

    /// The path of the file.
    #[verifier::when_used_as_spec(file_path_spec)]
    pub fn file_path(&self) -> (p: &FilePath)
        ensures
            p == self.file_path(),
    {
        &self.file_path
    }

    /// The root the file was found under.
    pub closed spec fn base_path_spec(&self) -> &RepositoryPath {
        &self.base_path
    }

    /// The root the file was found under.
    #[verifier::when_used_as_spec(base_path_spec)]
    pub fn base_path(&self) -> (p: &RepositoryPath)
        ensures
            p == self.base_path(),
    {
        &self.base_path
    }

    /// The alias rules that apply to the imports of the file.
    pub closed spec fn import_mappings_spec(&self) -> &ModuleMappings {
        &self.import_mappings
    }

    /// The alias rules that apply to the imports of the file.
    #[verifier::when_used_as_spec(import_mappings_spec)]
    pub fn import_mappings(&self) -> (m: &ModuleMappings)
        ensures
            m == self.import_mappings(),
    {
        &self.import_mappings
    }

    /// The paths named by the import statements in the lines of the file, in
    /// order. The alias rules of the file are applied to each line before the
    /// line is matched against [`IMPORT_PATTERN`].
    pub fn import_literals(&self, matcher: &ImportMatcher, lines: &Vec<String>) -> (r: Vec<String>)
        ensures
            names_of(r@) == import_literals(self.import_mappings()@, names_of(lines@)),
    {
        let mut found: Vec<Option<String>> = Vec::new();
        let mut i: usize = 0;
        while i < lines.len()
            invariant
                i <= lines@.len(),
                found@.len() == i,
                forall|k: int|
                    0 <= k < i ==> texts_of(found@)[k] == import_literal(
                        self.import_mappings()@,
                        #[trigger] lines@[k]@,
                    ),
            decreases lines@.len() - i,
        {
            let line = self.import_mappings.replace_import_aliases(lines[i].as_str());
            found.push(matcher.literal(line.as_str()));
            i += 1;
        }
        assert(texts_of(found@) =~= Seq::new(
            lines@.len(),
            |i: int| import_literal(self.import_mappings()@, names_of(lines@)[i]),
        ));
        collect_present(found)
    }

    /// The targets of the imports `literals` of the file, given what the
    /// file system made of the candidates of each, and the imports that were
    /// left out because they resolve to no file.
    ///
    /// `resolved` holds, for each literal in order, what
    /// [`ImportPath::from_import_string`] is to be given for it; a literal
    /// for which it holds nothing has no candidate that names a file.
    pub fn imports(&self, literals: &Vec<String>, resolved: &Vec<Vec<Option<SegmentPath>>>) -> (r: (
        Vec<ImportPath>,
        Vec<RepositoryFileResolveImportsError>,
    ))
        ensures
            import_targets(r.0@) == targets_of(
                names_of(literals@),
                resolved@,
                literals@.len() as int,
            ),
            r.1@.len() == unresolved_of(
                names_of(literals@),
                resolved@,
                literals@.len() as int,
            ).len(),
            forall|k: int|
                0 <= k < r.1@.len() ==> is_unresolved_import(
                    #[trigger] r.1@[k],
                    self.file_path()@,
                    unresolved_of(names_of(literals@), resolved@, literals@.len() as int)[k],
                ),
    {
        let cwd = FileParentPath::from_file_path(&self.file_path);
        let nothing: Vec<Option<SegmentPath>> = Vec::new();
        let mut imports: Vec<ImportPath> = Vec::new();
        let mut skipped: Vec<RepositoryFileResolveImportsError> = Vec::new();
        let mut i: usize = 0;
        assert(import_targets(imports@) =~= targets_of(names_of(literals@), resolved@, 0));
        while i < literals.len()
            invariant
                i <= literals@.len(),
                nothing@.len() == 0,
                cwd@ == parent_of(self.file_path()@),
                import_targets(imports@) == targets_of(names_of(literals@), resolved@, i as int),
                skipped@.len() == unresolved_of(names_of(literals@), resolved@, i as int).len(),
                forall|k: int|
                    0 <= k < skipped@.len() ==> is_unresolved_import(
                        #[trigger] skipped@[k],
                        self.file_path()@,
                        unresolved_of(names_of(literals@), resolved@, i as int)[k],
                    ),
            decreases literals@.len() - i,
        {
            let probes = if i < resolved.len() {
                &resolved[i]
            } else {
                &nothing
            };
            let ghost before = import_targets(imports@);
            match ImportPath::from_import_string(literals[i].as_str(), &cwd, probes) {
                Ok(target) => {
                    imports.push(target);
                    assert(import_targets(imports@) =~= before.push(target@));
                },
                Err(e) => {
                    skipped.push(
                        RepositoryFileResolveImportsError::ParseImportPath(
                            e,
                            self.file_path.clone(),
                        ),
                    );
                },
            }
            i += 1;
        }
        (imports, skipped)
    }

    /// The module the file belongs to: the first segment of its path under
    /// the root.
    pub fn module(&self) -> (r: Result<Module, RepositoryFileModuleError>)
        ensures
            match relative_to(self.base_path()@, self.file_path()@) {
                Some(rel) => match module_name_of(rel) {
                    Some(name) => r matches Ok(m) && m@ == name,
                    None => r matches Err(e) && is_file_module_error(
                        self.base_path()@,
                        self.file_path()@,
                        e,
                    ),
                },
                None => r matches Err(e) && is_file_module_error(
                    self.base_path()@,
                    self.file_path()@,
                    e,
                ),
            },
    {
        match RepositoryChildPath::from_file_path(&self.file_path, &self.base_path) {
            Ok(child) => match child.module() {
                Ok(m) => Ok(m),
                Err(e) => Err(RepositoryFileModuleError::Module(e)),
            },
            Err(e) => Err(RepositoryFileModuleError::FilePath(e)),
        }
    }
}

/// `e` says why the file at `file` has no module: the file does not lie
/// under `root`, or its path under `root` has none.
pub open spec fn is_file_module_error(
    root: Seq<SegmentView>,
    file: Seq<SegmentView>,
    e: RepositoryFileModuleError,
) -> bool {
    match relative_to(root, file) {
        Some(rel) => e matches RepositoryFileModuleError::Module(inner) && is_module_error(
            rel,
            inner,
        ),
        None => e matches RepositoryFileModuleError::FilePath(
            RepositoryChildPathFromFilePathError::Path(
                RepositoryChildPathFromPathError::ImportOutsideRoot(p),
            ),
        ) && p@ == render_segments(file),
    }
}

/// The literals among the first `n` of `literals` that resolve to no file, in
/// order.
pub open spec fn unresolved_of(
    literals: Seq<Seq<char>>,
    resolved: Seq<Vec<Option<SegmentPath>>>,
    n: int,
) -> Seq<Seq<char>>
    decreases n,
{
    if n <= 0 {
        Seq::empty()
    } else {
        let earlier = unresolved_of(literals, resolved, n - 1);
        match resolution(literals[n - 1], probes_at(resolved, n - 1)) {
            Some(_) => earlier,
            None => earlier.push(literals[n - 1]),
        }
    }
}

/// `e` says that the import `literal` of the file at `file` names no file.
pub open spec fn is_unresolved_import(
    e: RepositoryFileResolveImportsError,
    file: Seq<SegmentView>,
    literal: Seq<char>,
) -> bool {
    e matches RepositoryFileResolveImportsError::ParseImportPath(
        ImportPathFromImportStringError::CannotFindFile(p),
        path,
    ) && path@ == file && p@ == join_text(render_segments(parent_of(file)), literal)
}

/// The paths of a sequence of import targets.
pub open spec fn import_targets(imports: Seq<ImportPath>) -> Seq<Seq<SegmentView>> {
    Seq::new(imports.len(), |i: int| imports[i]@)
}

/// What the file system made of the candidates of literal `i`; nothing where
/// `resolved` does not reach that far.
pub open spec fn probes_at(resolved: Seq<Vec<Option<SegmentPath>>>, i: int) -> Seq<
    Option<SegmentPath>,
> {
    if 0 <= i < resolved.len() {
        resolved[i]@
    } else {
        Seq::empty()
    }
}

/// The targets of the first `n` of `literals`, in order, leaving out each
/// literal that resolves to no file.
pub open spec fn targets_of(
    literals: Seq<Seq<char>>,
    resolved: Seq<Vec<Option<SegmentPath>>>,
    n: int,
) -> Seq<Seq<SegmentView>>
    decreases n,
{
    if n <= 0 {
        Seq::empty()
    } else {
        let earlier = targets_of(literals, resolved, n - 1);
        match resolution(literals[n - 1], probes_at(resolved, n - 1)) {
            Some(c) => earlier.push(probes_at(resolved, n - 1)[c]->0@),
            None => earlier,
        }
    }
}

} // verus!
