//! What the commands of the tool decide, apart from what they read and print.

use crate::dependency::chain::names_of;
use crate::dependency::{dot_line, Dependency};
use crate::dependency::list::{keys_of, DependencyList, EdgeKey};
use crate::import_path::ImportPath;
use crate::module::Module;
use crate::render::Render;
use crate::repository::child::{
    is_module_error, module_name_of, relative_to, RepositoryChildPath,
    RepositoryChildPathModuleError,
};
use crate::repository::file::{
    import_targets, is_file_module_error, RepositoryFile, RepositoryFileModuleError,
};
use crate::segment::SegmentView;
use vstd::prelude::*;
use vstd::string::*;

verus! {

/// One of the rules a tree is held to.
#[derive(Clone, Copy, PartialEq, Eq, Structural, Debug)]
pub enum Rule {
    CircularModules,
    CircularFiles,
    ExternalBarrelImports,
    BarrelImportsBarrel,
}

/// The command that holds a tree to the rules.
#[derive(Debug)]
pub struct ValidateCommand {
    pub repository_path: String,
    pub circular_modules: bool,
    pub circular_files: bool,
    pub external_barrel_imports: bool,
    pub barrel_imports_barrel: bool,
    pub module_mapping_params: Vec<String>,
}

impl ValidateCommand {
    /// No rule was asked for by name.
    pub open spec fn none_selected(&self) -> bool {
        !self.circular_modules && !self.circular_files && !self.external_barrel_imports
            && !self.barrel_imports_barrel
    }

    /// The rule was asked for by name.
    pub open spec fn selected(&self, rule: Rule) -> bool {
        match rule {
            Rule::CircularModules => self.circular_modules,
            Rule::CircularFiles => self.circular_files,
            Rule::ExternalBarrelImports => self.external_barrel_imports,
            Rule::BarrelImportsBarrel => self.barrel_imports_barrel,
        }
    }

    /// Whether every rule is run: that is so where none was asked for by
    /// name.
    pub fn run_all(&self) -> (r: bool)
        ensures
            r == self.none_selected(),
    {
        !self.circular_modules && !self.circular_files && !self.external_barrel_imports
            && !self.barrel_imports_barrel
    }

    /// Whether `rule` is run: it is where it was asked for by name, or where
    /// no rule was.
    pub fn runs(&self, rule: Rule) -> (r: bool)
        ensures
            r == (self.none_selected() || self.selected(rule)),
    {
        self.run_all() || match rule {
            Rule::CircularModules => self.circular_modules,
            Rule::CircularFiles => self.circular_files,
            Rule::ExternalBarrelImports => self.external_barrel_imports,
            Rule::BarrelImportsBarrel => self.barrel_imports_barrel,
        }
    }
}

/// The first line of a graph description.
pub open spec fn graph_opening() -> Seq<char> {
    seq!['d', 'i', 'g', 'r', 'a', 'p', 'h', ' ', 'G', ' ', '{']
}

/// The last line of a graph description.
pub open spec fn graph_closing() -> Seq<char> {
    seq!['}']
}

/// The lines that draw the dependencies with the keys `keys`.
pub open spec fn dot_lines(keys: Seq<EdgeKey>) -> Seq<Seq<char>> {
    Seq::new(keys.len(), |i: int| dot_line(keys[i].0, keys[i].1))
}

/// The command that draws the graph of the modules of a tree.
#[derive(Debug)]
pub struct GraphCommand {
    pub repository_path: String,
    pub skip_folders: Vec<String>,
    pub module_mapping: Vec<String>,
}

impl GraphCommand {
    /// The description of the graph of `dependencies`, line by line: an
    /// opening line, one line for each dependency in the order of the set,
    /// and a closing line.
    pub fn lines(dependencies: &DependencyList<Module, Module>) -> (r: Vec<String>)
        ensures
            names_of(r@) == seq![graph_opening()] + dot_lines(keys_of(dependencies@)) + seq![
                graph_closing(),
            ],
    {
        proof {
            reveal_strlit("digraph G {");
            reveal_strlit("}");
            assert("digraph G {"@ =~= graph_opening());
            assert("}"@ =~= graph_closing());
        }
        let edges = dependencies.as_ref();
        let ghost keys = keys_of(dependencies@);
        let mut out: Vec<String> = Vec::new();
        out.push(String::from_str("digraph G {"));
        let mut i: usize = 0;
        assert(names_of(out@) =~= seq![graph_opening()] + dot_lines(keys.take(0)));
        while i < edges.len()
            invariant
                i <= edges@.len(),
                edges@ == dependencies@,
                keys == keys_of(dependencies@),
                names_of(out@) == seq![graph_opening()] + dot_lines(keys.take(i as int)),
            decreases edges@.len() - i,
        {
            let ghost before = names_of(out@);
            let line = edges[i].to_dot_format();
            out.push(line);
            assert(names_of(out@) =~= before.push(line@));
            assert(before.push(line@) =~= seq![graph_opening()] + dot_lines(keys.take(i + 1)));
            i += 1;
        }
        assert(keys.take(i as int) =~= keys);
        let ghost before = names_of(out@);
        out.push(String::from_str("}"));
        assert(names_of(out@) =~= before.push(graph_closing()));
        out
    }
}

/// The command that lists the dependencies of the files of a tree on modules.
#[derive(Debug)]
pub struct InspectCommand {
    pub repository_path: String,
    pub filter_from: Option<String>,
    pub skip_folders: Vec<String>,
    pub module_mapping: Vec<String>,
}

impl InspectCommand {
    /// Whether `dependency` is listed: every dependency is, unless a module
    /// was named, and then those are whose source lies in that module.
    pub fn lists<TTo: Render>(&self, dependency: &Dependency<RepositoryChildPath, TTo>) -> (r: bool)
        ensures
            r == match self.filter_from {
                Some(name) => module_name_of(dependency.from@) == Some(name@),
                None => true,
            },
    {
        match &self.filter_from {
            Some(name) => dependency.is_from_module(name.as_str()),
            None => true,
        }
    }
}

/// Why the imports of a file could not be counted.
#[derive(Debug)]
pub enum StatisticsCommandError {
    /// The target of an import has no module.
    InvalidModule(RepositoryChildPathModuleError),
    /// The file has no module.
    CannotGetModuleForRepositoryFile(RepositoryFileModuleError),
}

/// How many of the first `n` of `targets` lie under `root` in a module other
/// than `module`.
pub open spec fn imports_from_other_modules(
    root: Seq<SegmentView>,
    module: Seq<char>,
    targets: Seq<Seq<SegmentView>>,
    n: int,
) -> nat
    decreases n,
{
    if n <= 0 {
        0
    } else {
        let earlier = imports_from_other_modules(root, module, targets, n - 1);
        match relative_to(root, targets[n - 1]) {
            Some(to) => match module_name_of(to) {
                Some(name) => if name != module {
                    earlier + 1
                } else {
                    earlier
                },
                None => earlier,
            },
            None => earlier,
        }
    }
}

/// The index of the first of the first `n` of `targets` that lies under
/// `root` and belongs to no module, if any.
pub open spec fn first_target_without_module(
    root: Seq<SegmentView>,
    targets: Seq<Seq<SegmentView>>,
    n: int,
) -> Option<int>
    decreases n,
{
    if n <= 0 {
        None
    } else {
        match first_target_without_module(root, targets, n - 1) {
            Some(i) => Some(i),
            None => match relative_to(root, targets[n - 1]) {
                Some(to) => if module_name_of(to) is None {
                    Some(n - 1)
                } else {
                    None
                },
                None => None,
            },
        }
    }
}

/// The first target found without a module stays the first when more targets
/// are looked at.
pub proof fn lemma_first_target_without_module_found(
    root: Seq<SegmentView>,
    targets: Seq<Seq<SegmentView>>,
    i: int,
    n: int,
)
    requires
        0 <= i < n <= targets.len(),
        first_target_without_module(root, targets, i) is None,
        relative_to(root, targets[i]) matches Some(to) && module_name_of(to) is None,
    ensures
        first_target_without_module(root, targets, n) == Some(i),
    decreases n - i,
{
    if n > i + 1 {
        lemma_first_target_without_module_found(root, targets, i, n - 1);
    }
}

/// The command that counts the imports that leave their module.
#[derive(Debug)]
pub struct StatisticsCommand {
    pub repository_path: String,
    pub skip_folders: Vec<String>,
    pub module_mapping: Vec<String>,
}

impl StatisticsCommand {
    /// How many of the imports of a file come from a module other than its
    /// own. An import from outside the tree is not counted. A file without a
    /// module is refused, and so is a target without one.
    pub fn count(file: &RepositoryFile, imports: &Vec<ImportPath>) -> (r: Result<
        usize,
        StatisticsCommandError,
    >)
        ensures
            match relative_to(file.base_path()@, file.file_path()@) {
                Some(rel) => match module_name_of(rel) {
                    Some(module) => match first_target_without_module(
                        file.base_path()@,
                        import_targets(imports@),
                        imports@.len() as int,
                    ) {
                        None => r matches Ok(count) && count == imports_from_other_modules(
                            file.base_path()@,
                            module,
                            import_targets(imports@),
                            imports@.len() as int,
                        ),
                        Some(i) => r matches Err(StatisticsCommandError::InvalidModule(e))
                            && is_module_error(
                            relative_to(file.base_path()@, import_targets(imports@)[i])->0,
                            e,
                        ),
                    },
                    None => r matches Err(
                        StatisticsCommandError::CannotGetModuleForRepositoryFile(e),
                    ) && is_file_module_error(file.base_path()@, file.file_path()@, e),
                },
                None => r matches Err(StatisticsCommandError::CannotGetModuleForRepositoryFile(e))
                    && is_file_module_error(file.base_path()@, file.file_path()@, e),
            },
    {
        let current_module = match file.module() {
            Ok(m) => m,
            Err(e) => {
                return Err(StatisticsCommandError::CannotGetModuleForRepositoryFile(e));
            },
        };
        let ghost root = file.base_path()@;
        let ghost targets = import_targets(imports@);
        let mut count: usize = 0;
        let mut i: usize = 0;
        while i < imports.len()
            invariant
                i <= imports@.len(),
                root == file.base_path()@,
                targets == import_targets(imports@),
                relative_to(file.base_path()@, file.file_path()@) matches Some(rel)
                    && module_name_of(rel) == Some(current_module@),
                first_target_without_module(root, targets, i as int) is None,
                count == imports_from_other_modules(root, current_module@, targets, i as int),
                count <= i,
            decreases imports@.len() - i,
        {
            assert(targets[i as int] == imports@[i as int]@);
            match RepositoryChildPath::from_import_path(&imports[i], file.base_path()) {
                Ok(child) => match child.module() {
                    Ok(imported_module) => {
                        let dependency = Dependency::create(&current_module, &imported_module);
                        if !dependency.is_internal() {
                            count = count + 1;
                        }
                    },
                    Err(e) => {
                        proof {
                            lemma_first_target_without_module_found(
                                root,
                                targets,
                                i as int,
                                targets.len() as int,
                            );
                        }
                        return Err(StatisticsCommandError::InvalidModule(e));
                    },
                },
                Err(_) => {},
            }
            i += 1;
        }
        Ok(count)
    }
}

} // verus!
