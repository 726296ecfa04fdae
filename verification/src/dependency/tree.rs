//! Building the sets of dependencies of a file and of a tree.
//!
//! Each entry found while walking the tree is analysed on its own. An entry
//! that is no source file contributes nothing. Any other failure is kept,
//! and the whole build fails once every entry has been looked at, with the
//! failures of all entries.

use crate::dependency::Dependency;
use crate::dependency::list::{first_of_each, has_key, keys_of, DependencyList, EdgeKey};
use crate::import_path::ImportPath;
use crate::module::Module;
use crate::render::Render;
use crate::repository::child::{
    is_module_error, module_name_of, relative_to, RepositoryChildPath,
    RepositoryChildPathFromFilePathError, RepositoryChildPathFromImportPathError,
    RepositoryChildPathFromPathError, RepositoryChildPathFromRepositoryFileError,
    RepositoryChildPathModuleError,
};
use crate::repository::file::{
    import_targets, RepositoryFile, RepositoryFileModuleError, RepositoryFileResolveImportsError,
};
use crate::repository::RepositoryFilesError;
use crate::segment::{render_segments, SegmentView};
use crate::unique::distinct;
use vstd::prelude::*;

verus! {

/// A dependency between two files, by their paths under the root.
pub type PathPair = (Seq<SegmentView>, Seq<SegmentView>);

/// The key of a dependency between two files.
pub open spec fn pair_key(pair: PathPair) -> EdgeKey {
    (render_segments(pair.0), render_segments(pair.1))
}

/// One of `pairs` has the key `key`.
pub open spec fn has_pair(pairs: Seq<PathPair>, key: EdgeKey) -> bool {
    exists|i: int| 0 <= i < pairs.len() && pair_key(#[trigger] pairs[i]) == key
}

/// The paths of the endpoints of a sequence of dependencies between files.
pub open spec fn path_pairs(
    edges: Seq<Dependency<RepositoryChildPath, RepositoryChildPath>>,
) -> Seq<PathPair> {
    Seq::new(edges.len(), |i: int| (edges[i].from@, edges[i].to@))
}

/// The dependencies of the file at `from` that its first `n` imports give:
/// one for each import that lies under `root`, in order, but for those whose
/// key an earlier one has.
pub open spec fn file_edges(
    root: Seq<SegmentView>,
    from: Seq<SegmentView>,
    imports: Seq<Seq<SegmentView>>,
    n: int,
) -> Seq<PathPair>
    decreases n,
{
    if n <= 0 {
        Seq::empty()
    } else {
        let earlier = file_edges(root, from, imports, n - 1);
        match relative_to(root, imports[n - 1]) {
            None => earlier,
            Some(to) => if has_pair(earlier, pair_key((from, to))) {
                earlier
            } else {
                earlier.push((from, to))
            },
        }
    }
}

/// Both endpoints of the dependency belong to a module.
pub open spec fn pair_has_modules(pair: PathPair) -> bool {
    module_name_of(pair.0) is Some && module_name_of(pair.1) is Some
}

/// The index of the first of the first `n` of `pairs` with an endpoint that
/// belongs to no module, if any.
pub open spec fn first_without_module(pairs: Seq<PathPair>, n: int) -> Option<int>
    decreases n,
{
    if n <= 0 {
        None
    } else {
        match first_without_module(pairs, n - 1) {
            Some(i) => Some(i),
            None => if pair_has_modules(pairs[n - 1]) {
                None
            } else {
                Some(n - 1)
            },
        }
    }
}

/// The dependencies between modules that the first `n` of `pairs` give: for
/// each pair whose endpoints lie in different modules, in order, the module
/// of the source and the module of the target.
pub open spec fn module_edges(pairs: Seq<PathPair>, n: int) -> Seq<EdgeKey>
    decreases n,
{
    if n <= 0 {
        Seq::empty()
    } else {
        let earlier = module_edges(pairs, n - 1);
        match (module_name_of(pairs[n - 1].0), module_name_of(pairs[n - 1].1)) {
            (Some(from), Some(to)) => if from != to {
                earlier.push((from, to))
            } else {
                earlier
            },
            _ => earlier,
        }
    }
}

/// The endpoint of `pair` for which the lack of a module is reported: the
/// source where it has none, else the target.
pub open spec fn endpoint_without_module(pair: PathPair) -> Seq<SegmentView> {
    if module_name_of(pair.0) is None {
        pair.0
    } else {
        pair.1
    }
}

/// Why the dependencies of a file could not be had.
#[derive(Debug)]
pub enum DependencyListFromRepositoryFileError {
    /// Some imports have no place under the root for a reason other than
    /// lying outside it.
    InvalidImports(Vec<RepositoryChildPathFromImportPathError>),
    /// Walking the tree failed at the file.
    CouldNotScanFile(RepositoryFilesError),
    /// The imports of the file could not be read.
    CouldNotReadImports(RepositoryFileResolveImportsError),
    /// The file itself has no place under the root.
    CouldNotLocateFileWithinRepository(RepositoryChildPathFromRepositoryFileError),
}

/// Why the dependencies of a tree could not be had: the failures of all its
/// entries.
#[derive(Debug)]
pub enum DependencyListFromRepositoryError {
    InvalidFiles(Vec<DependencyListFromRepositoryAnalyzeFileError>),
}

/// Why one entry of a tree could not be analysed.
#[derive(Debug)]
pub enum DependencyListFromRepositoryAnalyzeFileError {
    /// Walking the tree failed at the entry.
    CouldNotScanFile(RepositoryFilesError),
    /// The file has no module.
    CouldNotGetModule(RepositoryFileModuleError),
    /// An endpoint of a dependency of the file has no module.
    CouldNotConvertFilePathToModule(RepositoryChildPathModuleError),
    /// The dependencies of the file could not be had.
    CouldNotGetDependencyList(DependencyListFromRepositoryFileError),
}

/// One source file as it was found in the tree, with the targets of its
/// imports or the reason they could not be read.
#[derive(Debug)]
pub struct ScannedFile {
    pub file: RepositoryFile,
    pub imports: Result<Vec<ImportPath>, RepositoryFileResolveImportsError>,
}

/// One entry met while walking the tree: a source file, or the reason there
/// is none.
pub type ScannedEntry = Result<ScannedFile, RepositoryFilesError>;

/// `e` says that the path `path` lies outside the root.
pub open spec fn is_outside_root(e: RepositoryChildPathFromRepositoryFileError, path: Seq<SegmentView>) -> bool {
    e matches RepositoryChildPathFromRepositoryFileError::FilePath(
        RepositoryChildPathFromFilePathError::Path(
            RepositoryChildPathFromPathError::ImportOutsideRoot(p),
        ),
    ) && p@ == render_segments(path)
}

/// The dependencies between files that a scanned file gives, where they can
/// be had: the file must lie under its root, and its imports must have been
/// read.
pub open spec fn scanned_pairs(scanned: ScannedFile) -> Option<Seq<PathPair>> {
    match relative_to(scanned.file.base_path()@, scanned.file.file_path()@) {
        None => None,
        Some(from) => match scanned.imports {
            Err(_) => None,
            Ok(imports) => Some(
                file_edges(
                    scanned.file.base_path()@,
                    from,
                    import_targets(imports@),
                    imports@.len() as int,
                ),
            ),
        },
    }
}

/// `e` says why the dependencies of a scanned file could not be had.
pub open spec fn is_scanned_error(scanned: ScannedFile, e: DependencyListFromRepositoryFileError) -> bool {
    match relative_to(scanned.file.base_path()@, scanned.file.file_path()@) {
        None => e matches DependencyListFromRepositoryFileError::CouldNotLocateFileWithinRepository(
            inner,
        ) && is_outside_root(inner, scanned.file.file_path()@),
        Some(_) => match scanned.imports {
            Err(cause) => e matches DependencyListFromRepositoryFileError::CouldNotReadImports(
                inner,
            ) && inner == cause,
            Ok(_) => false,
        },
    }
}

/// The dependencies between files that an entry gives, where they can be
/// had. An entry that is no source file gives none.
pub open spec fn entry_pairs(entry: ScannedEntry) -> Option<Seq<PathPair>> {
    match entry {
        Err(RepositoryFilesError::CannotAnalyzeFile(_)) => Some(Seq::empty()),
        Err(RepositoryFilesError::CannotScanFiles(_)) => None,
        Ok(scanned) => match scanned_pairs(scanned) {
            Some(pairs) => if first_without_module(pairs, pairs.len() as int) is None {
                Some(pairs)
            } else {
                None
            },
            None => None,
        },
    }
}

/// `e` says why an entry could not be analysed.
pub open spec fn is_entry_error(entry: ScannedEntry, e: DependencyListFromRepositoryAnalyzeFileError) -> bool {
    match entry {
        Err(RepositoryFilesError::CannotAnalyzeFile(_)) => false,
        Err(cause) => e matches DependencyListFromRepositoryAnalyzeFileError::CouldNotScanFile(
            inner,
        ) && inner == cause,
        Ok(scanned) => match scanned_pairs(scanned) {
            None => e matches DependencyListFromRepositoryAnalyzeFileError::CouldNotGetDependencyList(
                inner,
            ) && is_scanned_error(scanned, inner),
            Some(pairs) => match first_without_module(pairs, pairs.len() as int) {
                Some(i) => e matches DependencyListFromRepositoryAnalyzeFileError::CouldNotConvertFilePathToModule(
                    inner,
                ) && is_module_error(endpoint_without_module(pairs[i]), inner),
                None => false,
            },
        },
    }
}

/// The errors among `results`, in order.
pub open spec fn errors_in<A, E>(results: Seq<Result<A, E>>) -> Seq<E>
    decreases results.len(),
{
    if results.len() == 0 {
        Seq::empty()
    } else {
        match results.last() {
            Ok(_) => errors_in(results.drop_last()),
            Err(e) => errors_in(results.drop_last()).push(e),
        }
    }
}

/// The dependencies of the successes among `results`, in order.
pub open spec fn edges_in<F: Render, T: Render, E>(
    results: Seq<Result<Vec<Dependency<F, T>>, E>>,
) -> Seq<Dependency<F, T>>
    decreases results.len(),
{
    if results.len() == 0 {
        Seq::empty()
    } else {
        match results.last() {
            Ok(edges) => edges_in(results.drop_last()) + edges@,
            Err(_) => edges_in(results.drop_last()),
        }
    }
}

/// The indices of the first `n` of `entries` that cannot be analysed.
pub open spec fn failing(entries: Seq<ScannedEntry>, n: int) -> Seq<int>
    decreases n,
{
    if n <= 0 {
        Seq::empty()
    } else if entry_pairs(entries[n - 1]) is None {
        failing(entries, n - 1).push(n - 1)
    } else {
        failing(entries, n - 1)
    }
}

/// `pairs` without the dependencies whose key an earlier one has.
pub open spec fn first_pairs(pairs: Seq<PathPair>) -> Seq<PathPair>
    decreases pairs.len(),
{
    if pairs.len() == 0 {
        Seq::empty()
    } else {
        let kept = first_pairs(pairs.drop_last());
        if has_pair(kept, pair_key(pairs.last())) {
            kept
        } else {
            kept.push(pairs.last())
        }
    }
}

/// The dependencies between files that the first `n` of `entries` give, in
/// order; an entry that cannot be analysed gives none.
pub open spec fn tree_file_pairs(entries: Seq<ScannedEntry>, n: int) -> Seq<PathPair>
    decreases n,
{
    if n <= 0 {
        Seq::empty()
    } else {
        match entry_pairs(entries[n - 1]) {
            Some(pairs) => tree_file_pairs(entries, n - 1) + pairs,
            None => tree_file_pairs(entries, n - 1),
        }
    }
}

/// The dependencies between modules that the first `n` of `entries` give, in
/// order; an entry that cannot be analysed gives none.
pub open spec fn tree_module_keys(entries: Seq<ScannedEntry>, n: int) -> Seq<EdgeKey>
    decreases n,
{
    if n <= 0 {
        Seq::empty()
    } else {
        match entry_pairs(entries[n - 1]) {
            Some(pairs) => tree_module_keys(entries, n - 1) + module_edges(
                pairs,
                pairs.len() as int,
            ),
            None => tree_module_keys(entries, n - 1),
        }
    }
}

/// Each of `errors` says why the entry at the index of the same place in
/// `failing(entries, n)` cannot be analysed.
pub open spec fn explains(
    entries: Seq<ScannedEntry>,
    n: int,
    errors: Seq<DependencyListFromRepositoryAnalyzeFileError>,
) -> bool {
    &&& errors.len() == failing(entries, n).len()
    &&& forall|k: int|
        0 <= k < errors.len() ==> is_entry_error(
            entries[failing(entries, n)[k]],
            #[trigger] errors[k],
        )
}

impl DependencyList<RepositoryChildPath, RepositoryChildPath> {
    /// The dependencies of one file: the file depends on each target of its
    /// imports that lies under the root. A target outside the root is left
    /// out. A file that itself lies outside the root has no dependencies to
    /// give, nor has one whose imports could not be read.
    pub fn try_from(
        analyzed_file: &RepositoryFile,
        imports: Result<Vec<ImportPath>, RepositoryFileResolveImportsError>,
    ) -> (r: Result<Self, DependencyListFromRepositoryFileError>)
        ensures
            match scanned_pairs(ScannedFile { file: *analyzed_file, imports }) {
                Some(pairs) => r matches Ok(list) && path_pairs(list@) == pairs,
                None => r matches Err(e) && is_scanned_error(
                    ScannedFile { file: *analyzed_file, imports },
                    e,
                ),
            },
    {
        let from = match RepositoryChildPath::from_repository_file(analyzed_file) {
            Ok(child) => child,
            Err(e) => {
                return Err(
                    DependencyListFromRepositoryFileError::CouldNotLocateFileWithinRepository(e),
                );
            },
        };
        let targets = match imports {
            Ok(targets) => targets,
            Err(e) => {
                return Err(DependencyListFromRepositoryFileError::CouldNotReadImports(e));
            },
        };
        let ghost root = analyzed_file.base_path()@;
        let ghost paths = import_targets(targets@);
        let mut list = DependencyList::new();
        let mut i: usize = 0;
        assert(path_pairs(list@) =~= file_edges(root, from@, paths, 0));
        while i < targets.len()
            invariant
                i <= targets@.len(),
                root == analyzed_file.base_path()@,
                paths == import_targets(targets@),
                path_pairs(list@) == file_edges(root, from@, paths, i as int),
            decreases targets@.len() - i,
        {
            let ghost before = list@;
            match RepositoryChildPath::from_import_path(&targets[i], analyzed_file.base_path()) {
                Ok(to) => {
                    let edge = Dependency::create(from.clone(), to);
                    proof {
                        assert(edge.key() == pair_key((from@, edge.to@)));
                        if has_key(before, edge.key()) {
                            let x = choose|x: int|
                                0 <= x < before.len() && (#[trigger] before[x]).key() == edge.key();
                            assert(pair_key(path_pairs(before)[x]) == edge.key());
                        }
                        if has_pair(path_pairs(before), edge.key()) {
                            let x = choose|x: int|
                                0 <= x < path_pairs(before).len() && pair_key(
                                    #[trigger] path_pairs(before)[x],
                                ) == edge.key();
                            assert(before[x].key() == edge.key());
                        }
                    }
                    list = list.with(edge);
                    proof {
                        if !has_key(before, edge.key()) {
                            assert(path_pairs(list@) =~= path_pairs(before).push(
                                (from@, edge.to@),
                            ));
                        }
                    }
                },
                Err(RepositoryChildPathFromImportPathError::Path(e)) => match e {
                    RepositoryChildPathFromPathError::ImportOutsideRoot(_) => {},
                },
            }
            i += 1;
        }
        Ok(list)
    }

    /// The dependencies between files that one entry of the tree gives. An
    /// entry that is no source file gives none. Every endpoint of what is
    /// returned belongs to a module.
    pub fn of_entry(entry: ScannedEntry) -> (r: Result<
        Vec<Dependency<RepositoryChildPath, RepositoryChildPath>>,
        DependencyListFromRepositoryAnalyzeFileError,
    >)
        ensures
            match entry_pairs(entry) {
                Some(pairs) => r matches Ok(edges) && path_pairs(edges@) == pairs
                    && keys_of(edges@).no_duplicates(),
                None => r matches Err(e) && is_entry_error(entry, e),
            },
    {
        let ghost whole = entry;
        let scanned = match entry {
            Ok(scanned) => scanned,
            Err(e) => match e {
                RepositoryFilesError::CannotAnalyzeFile(_) => {
                    let none: Vec<Dependency<RepositoryChildPath, RepositoryChildPath>> =
                        Vec::new();
                    assert(path_pairs(none@) =~= Seq::<PathPair>::empty());
                    assert(keys_of(none@) =~= Seq::<EdgeKey>::empty());
                    return Ok(none);
                },
                _ => {
                    return Err(DependencyListFromRepositoryAnalyzeFileError::CouldNotScanFile(e));
                },
            },
        };
        let ScannedFile { file, imports } = scanned;
        let list = match DependencyList::<RepositoryChildPath, RepositoryChildPath>::try_from(
            &file,
            imports,
        ) {
            Ok(list) => list,
            Err(e) => {
                return Err(
                    DependencyListFromRepositoryAnalyzeFileError::CouldNotGetDependencyList(e),
                );
            },
        };
        let ghost pairs = path_pairs(list@);
        let edges = list.into_edges();
        let mut i: usize = 0;
        while i < edges.len()
            invariant
                i <= edges@.len(),
                pairs == path_pairs(edges@),
                whole == entry,
                whole matches Ok(found) && scanned_pairs(found) == Some(pairs),
                first_without_module(pairs, i as int) is None,
            decreases edges@.len() - i,
        {
            assert(pairs[i as int] == (edges@[i as int].from@, edges@[i as int].to@));
            match edges[i].from.module() {
                Ok(_) => {},
                Err(e) => {
                    proof {
                        lemma_first_without_module_found(pairs, i as int, pairs.len() as int);
                    }
                    return Err(
                        DependencyListFromRepositoryAnalyzeFileError::CouldNotConvertFilePathToModule(
                            e,
                        ),
                    );
                },
            }
            match edges[i].to.module() {
                Ok(_) => {},
                Err(e) => {
                    proof {
                        lemma_first_without_module_found(pairs, i as int, pairs.len() as int);
                    }
                    return Err(
                        DependencyListFromRepositoryAnalyzeFileError::CouldNotConvertFilePathToModule(
                            e,
                        ),
                    );
                },
            }
            i += 1;
        }
        Ok(edges)
    }

    /// The dependencies between the files of a tree, given every entry met
    /// while walking it. Where some entries cannot be analysed, the build
    /// fails with the failures of all of them, in the order of the entries.
    pub fn from_entries(entries: Vec<ScannedEntry>) -> (r: Result<
        Self,
        DependencyListFromRepositoryError,
    >)
        ensures
            match r {
                Ok(list) => failing(entries@, entries@.len() as int).len() == 0 && path_pairs(
                    list@,
                ) == first_pairs(tree_file_pairs(entries@, entries@.len() as int))
                    && forall|i: int| 0 <= i < list@.len() ==> (#[trigger] list@[i]).has_modules(),
                Err(DependencyListFromRepositoryError::InvalidFiles(errors)) => errors@.len() > 0
                    && explains(entries@, entries@.len() as int, errors@),
            },
    {
        let ghost all = entries@;
        let mut results: Vec<
            Result<
                Vec<Dependency<RepositoryChildPath, RepositoryChildPath>>,
                DependencyListFromRepositoryAnalyzeFileError,
            >,
        > = Vec::new();
        assert(path_pairs(edges_in(results@)) =~= tree_file_pairs(all, 0));
        for entry in it: entries
            invariant
                it.seq() == all,
                explains(all, it.index() as int, errors_in(results@)),
                path_pairs(edges_in(results@)) == tree_file_pairs(all, it.index() as int),
                forall|i: int|
                    0 <= i < edges_in(results@).len() ==> (#[trigger] edges_in(
                        results@,
                    )[i]).has_modules(),
        {
            let ghost before = results@;
            let ghost n = it.index() as int;
            let result = DependencyList::<RepositoryChildPath, RepositoryChildPath>::of_entry(
                entry,
            );
            let ghost outcome = result;
            proof {
                assert(before.push(outcome).drop_last() =~= before);
                match outcome {
                    Ok(edges) => {
                        let pairs = entry_pairs(entry)->0;
                        assert(path_pairs(edges_in(before) + edges@) =~= tree_file_pairs(all, n)
                            + pairs);
                        assert forall|i: int|
                            0 <= i < (edges_in(before) + edges@).len() implies (#[trigger] (
                        edges_in(before) + edges@)[i]).has_modules() by {
                            if i >= edges_in(before).len() {
                                let x = i - edges_in(before).len();
                                assert(pairs[x] == (edges@[x].from@, edges@[x].to@));
                                lemma_all_with_modules(pairs, pairs.len() as int, x);
                            }
                        }
                    },
                    Err(e) => {
                        let errs = errors_in(before).push(e);
                        assert forall|k: int| 0 <= k < errs.len() implies is_entry_error(
                            all[failing(all, n + 1)[k]],
                            #[trigger] errs[k],
                        ) by {
                            if k < errors_in(before).len() {
                                assert(is_entry_error(
                                    all[failing(all, n)[k]],
                                    errors_in(before)[k],
                                ));
                            }
                        }
                    },
                }
            }
            results.push(result);
        }
        match DependencyList::from_results(results) {
            Ok(list) => {
                proof {
                    lemma_path_pairs_of_first_of_each(edges_in(results@));
                    lemma_first_of_each_keeps(
                        edges_in(results@),
                        |d: Dependency<RepositoryChildPath, RepositoryChildPath>| d.has_modules(),
                    );
                }
                Ok(list)
            },
            Err(e) => Err(e),
        }
    }
}

/// The first endpoint found without a module stays the first when more
/// dependencies are looked at.
pub proof fn lemma_first_without_module_found(pairs: Seq<PathPair>, i: int, n: int)
    requires
        0 <= i < n <= pairs.len(),
        first_without_module(pairs, i) is None,
        !pair_has_modules(pairs[i]),
    ensures
        first_without_module(pairs, n) == Some(i),
    decreases n - i,
{
    if n > i + 1 {
        lemma_first_without_module_found(pairs, i, n - 1);
    }
}

/// Where none of the first `n` dependencies lacks a module, each of them has
/// its modules.
pub proof fn lemma_all_with_modules(pairs: Seq<PathPair>, n: int, i: int)
    requires
        0 <= i < n <= pairs.len(),
        first_without_module(pairs, n) is None,
    ensures
        pair_has_modules(pairs[i]),
    decreases n,
{
    if i < n - 1 {
        lemma_all_with_modules(pairs, n - 1, i);
    }
}

/// Keeping the first dependency of each key, and then taking the paths of
/// the endpoints, gives what taking the paths and then keeping the first pair
/// of each key gives.
pub proof fn lemma_path_pairs_of_first_of_each(
    edges: Seq<Dependency<RepositoryChildPath, RepositoryChildPath>>,
)
    ensures
        path_pairs(first_of_each(edges)) == first_pairs(path_pairs(edges)),
    decreases edges.len(),
{
    if edges.len() == 0 {
        assert(path_pairs(first_of_each(edges)) =~= Seq::<PathPair>::empty());
        assert(path_pairs(edges) =~= Seq::<PathPair>::empty());
    } else {
        let init = edges.drop_last();
        let kept = first_of_each(init);
        lemma_path_pairs_of_first_of_each(init);
        assert(path_pairs(edges).drop_last() =~= path_pairs(init));
        assert(path_pairs(edges).last() == (edges.last().from@, edges.last().to@));
        let key = edges.last().key();
        assert(key == pair_key(path_pairs(edges).last()));
        if has_key(kept, key) {
            let x = choose|x: int| 0 <= x < kept.len() && (#[trigger] kept[x]).key() == key;
            assert(pair_key(path_pairs(kept)[x]) == key);
        }
        if has_pair(path_pairs(kept), key) {
            let x = choose|x: int|
                0 <= x < path_pairs(kept).len() && pair_key(#[trigger] path_pairs(kept)[x]) == key;
            assert(kept[x].key() == key);
        }
        if !has_key(kept, key) {
            assert(path_pairs(kept.push(edges.last())) =~= path_pairs(kept).push(
                path_pairs(edges).last(),
            ));
        }
    }
}

/// The keys of `first_of_each` are the keys of `edges`, each kept where it
/// first occurs.
pub proof fn lemma_keys_of_first_of_each<F: Render, T: Render>(edges: Seq<Dependency<F, T>>)
    ensures
        keys_of(first_of_each(edges)) == distinct(keys_of(edges)),
    decreases edges.len(),
{
    if edges.len() == 0 {
        assert(keys_of(first_of_each(edges)) =~= Seq::<EdgeKey>::empty());
        assert(keys_of(edges) =~= Seq::<EdgeKey>::empty());
    } else {
        let init = edges.drop_last();
        let kept = first_of_each(init);
        lemma_keys_of_first_of_each(init);
        assert(keys_of(edges).drop_last() =~= keys_of(init));
        assert(keys_of(edges).last() == edges.last().key());
        let key = edges.last().key();
        if has_key(kept, key) {
            let x = choose|x: int| 0 <= x < kept.len() && (#[trigger] kept[x]).key() == key;
            assert(keys_of(kept)[x] == key);
        }
        if keys_of(kept).contains(key) {
            let x = keys_of(kept).index_of(key);
            assert(kept[x].key() == key);
        }
        if !has_key(kept, key) {
            assert(keys_of(kept.push(edges.last())) =~= keys_of(kept).push(key));
        }
    }
}

/// What holds of every one of `edges` holds of every one of `first_of_each`.
pub proof fn lemma_first_of_each_keeps<F: Render, T: Render>(
    edges: Seq<Dependency<F, T>>,
    holds: spec_fn(Dependency<F, T>) -> bool,
)
    requires
        forall|i: int| 0 <= i < edges.len() ==> holds(#[trigger] edges[i]),
    ensures
        forall|i: int|
            0 <= i < first_of_each(edges).len() ==> holds(#[trigger] first_of_each(edges)[i]),
    decreases edges.len(),
{
    if edges.len() > 0 {
        let init = edges.drop_last();
        assert forall|i: int| 0 <= i < init.len() implies holds(#[trigger] init[i]) by {
            assert(init[i] == edges[i]);
        }
        lemma_first_of_each_keeps(init, holds);
        let kept = first_of_each(init);
        let all = first_of_each(edges);
        assert forall|i: int| 0 <= i < all.len() implies holds(#[trigger] all[i]) by {
            if i < kept.len() {
                assert(holds(kept[i]));
            } else {
                assert(all[i] == edges[edges.len() - 1]);
            }
        }
    }
}

impl DependencyList<Module, Module> {
    /// The dependencies between modules that the dependencies of one file
    /// give: for each dependency whose endpoints lie in different modules, in
    /// order, the module of its source on the module of its target. The first
    /// endpoint that belongs to no module is refused.
    pub fn of_file(
        file_dependencies: &Vec<Dependency<RepositoryChildPath, RepositoryChildPath>>,
    ) -> (r: Result<Vec<Dependency<Module, Module>>, DependencyListFromRepositoryAnalyzeFileError>)
        ensures
            match first_without_module(
                path_pairs(file_dependencies@),
                file_dependencies@.len() as int,
            ) {
                None => r matches Ok(edges) && keys_of(edges@) == module_edges(
                    path_pairs(file_dependencies@),
                    file_dependencies@.len() as int,
                ),
                Some(i) => r matches Err(
                    DependencyListFromRepositoryAnalyzeFileError::CouldNotConvertFilePathToModule(e),
                ) && is_module_error(
                    endpoint_without_module(path_pairs(file_dependencies@)[i]),
                    e,
                ),
            },
    {
        let ghost pairs = path_pairs(file_dependencies@);
        let mut out: Vec<Dependency<Module, Module>> = Vec::new();
        let mut i: usize = 0;
        assert(keys_of(out@) =~= module_edges(pairs, 0));
        while i < file_dependencies.len()
            invariant
                i <= file_dependencies@.len(),
                pairs == path_pairs(file_dependencies@),
                first_without_module(pairs, i as int) is None,
                keys_of(out@) == module_edges(pairs, i as int),
            decreases file_dependencies@.len() - i,
        {
            let d = &file_dependencies[i];
            assert(pairs[i as int] == (d.from@, d.to@));
            let (from_result, to_result) = (d.from.module(), d.to.module());
            let from = match from_result {
                Ok(from_module) => from_module,
                Err(e) => {
                    proof {
                        lemma_first_without_module_found(pairs, i as int, pairs.len() as int);
                    }
                    return Err(
                        DependencyListFromRepositoryAnalyzeFileError::CouldNotConvertFilePathToModule(
                            e,
                        ),
                    );
                },
            };
            let to = match to_result {
                Ok(to_module) => to_module,
                Err(e) => {
                    proof {
                        lemma_first_without_module_found(pairs, i as int, pairs.len() as int);
                    }
                    return Err(
                        DependencyListFromRepositoryAnalyzeFileError::CouldNotConvertFilePathToModule(
                            e,
                        ),
                    );
                },
            };
            let dependency = Dependency::create(from, to);
            if !dependency.is_internal() {
                let ghost before = keys_of(out@);
                out.push(dependency);
                assert(keys_of(out@) =~= before.push((dependency.from@, dependency.to@)));
            }
            i += 1;
        }
        Ok(out)
    }

    /// The dependencies between modules that one entry of the tree gives. An
    /// entry that is no source file gives none.
    pub fn of_entry(entry: ScannedEntry) -> (r: Result<
        Vec<Dependency<Module, Module>>,
        DependencyListFromRepositoryAnalyzeFileError,
    >)
        ensures
            match entry_pairs(entry) {
                Some(pairs) => r matches Ok(edges) && keys_of(edges@) == module_edges(
                    pairs,
                    pairs.len() as int,
                ),
                None => r matches Err(e) && is_entry_error(entry, e),
            },
    {
        match DependencyList::<RepositoryChildPath, RepositoryChildPath>::of_entry(entry) {
            Ok(file_dependencies) => {
                proof {
                    let pairs = path_pairs(file_dependencies@);
                    assert(entry_pairs(entry) == Some(pairs));
                    assert(first_without_module(pairs, pairs.len() as int) is None);
                }
                DependencyList::<Module, Module>::of_file(&file_dependencies)
            },
            Err(e) => Err(e),
        }
    }

    /// The dependencies between the modules of a tree, given every entry met
    /// while walking it. Where some entries cannot be analysed, the build
    /// fails with the failures of all of them, in the order of the entries.
    pub fn try_from(entries: Vec<ScannedEntry>) -> (r: Result<
        Self,
        DependencyListFromRepositoryError,
    >)
        ensures
            match r {
                Ok(list) => failing(entries@, entries@.len() as int).len() == 0 && keys_of(list@)
                    == distinct(tree_module_keys(entries@, entries@.len() as int)),
                Err(DependencyListFromRepositoryError::InvalidFiles(errors)) => errors@.len() > 0
                    && explains(entries@, entries@.len() as int, errors@),
            },
    {
        let ghost all = entries@;
        let mut results: Vec<
            Result<Vec<Dependency<Module, Module>>, DependencyListFromRepositoryAnalyzeFileError>,
        > = Vec::new();
        assert(keys_of(edges_in(results@)) =~= tree_module_keys(all, 0));
        for entry in it: entries
            invariant
                it.seq() == all,
                explains(all, it.index() as int, errors_in(results@)),
                keys_of(edges_in(results@)) == tree_module_keys(all, it.index() as int),
        {
            let ghost before = results@;
            let ghost n = it.index() as int;
            let result = DependencyList::<Module, Module>::of_entry(entry);
            let ghost outcome = result;
            proof {
                assert(before.push(outcome).drop_last() =~= before);
                match outcome {
                    Ok(edges) => {
                        let pairs = entry_pairs(entry)->0;
                        assert(keys_of(edges_in(before) + edges@) =~= tree_module_keys(all, n)
                            + module_edges(pairs, pairs.len() as int));
                    },
                    Err(e) => {
                        let errs = errors_in(before).push(e);
                        assert forall|k: int| 0 <= k < errs.len() implies is_entry_error(
                            all[failing(all, n + 1)[k]],
                            #[trigger] errs[k],
                        ) by {
                            if k < errors_in(before).len() {
                                assert(is_entry_error(
                                    all[failing(all, n)[k]],
                                    errors_in(before)[k],
                                ));
                            }
                        }
                    },
                }
            }
            results.push(result);
        }
        match DependencyList::from_results(results) {
            Ok(list) => {
                proof {
                    lemma_keys_of_first_of_each(edges_in(results@));
                }
                Ok(list)
            },
            Err(e) => Err(e),
        }
    }
}

/// A dependency of a file on a module: the path of the file under the root,
/// and the name of the module.
pub type FileOnModule = (Seq<SegmentView>, Seq<char>);

/// The dependencies of files on modules that the first `n` of `pairs` give:
/// for each pair whose endpoints lie in different modules, in order, the
/// source on the module of the target.
pub open spec fn module_imports(pairs: Seq<PathPair>, n: int) -> Seq<FileOnModule>
    decreases n,
{
    if n <= 0 {
        Seq::empty()
    } else {
        let earlier = module_imports(pairs, n - 1);
        match (module_name_of(pairs[n - 1].0), module_name_of(pairs[n - 1].1)) {
            (Some(from), Some(to)) => if from != to {
                earlier.push((pairs[n - 1].0, to))
            } else {
                earlier
            },
            _ => earlier,
        }
    }
}

/// The source and the module of each of `edges`.
pub open spec fn files_on_modules(edges: Seq<Dependency<RepositoryChildPath, Module>>) -> Seq<
    FileOnModule,
> {
    Seq::new(edges.len(), |i: int| (edges[i].from@, edges[i].to@))
}

impl DependencyList<RepositoryChildPath, Module> {
    /// The dependencies of one file on the modules of other files: for each
    /// dependency whose endpoints lie in different modules, in order, its
    /// source on the module of its target. The first endpoint that belongs to
    /// no module is refused.
    pub fn of_file(
        file_dependencies: &Vec<Dependency<RepositoryChildPath, RepositoryChildPath>>,
    ) -> (r: Result<
        Vec<Dependency<RepositoryChildPath, Module>>,
        DependencyListFromRepositoryAnalyzeFileError,
    >)
        ensures
            match first_without_module(
                path_pairs(file_dependencies@),
                file_dependencies@.len() as int,
            ) {
                None => r matches Ok(edges) && files_on_modules(edges@) == module_imports(
                    path_pairs(file_dependencies@),
                    file_dependencies@.len() as int,
                ),
                Some(i) => r matches Err(
                    DependencyListFromRepositoryAnalyzeFileError::CouldNotConvertFilePathToModule(e),
                ) && is_module_error(
                    endpoint_without_module(path_pairs(file_dependencies@)[i]),
                    e,
                ),
            },
    {
        let ghost pairs = path_pairs(file_dependencies@);
        let mut out: Vec<Dependency<RepositoryChildPath, Module>> = Vec::new();
        let mut i: usize = 0;
        assert(files_on_modules(out@) =~= module_imports(pairs, 0));
        while i < file_dependencies.len()
            invariant
                i <= file_dependencies@.len(),
                pairs == path_pairs(file_dependencies@),
                first_without_module(pairs, i as int) is None,
                files_on_modules(out@) == module_imports(pairs, i as int),
            decreases file_dependencies@.len() - i,
        {
            let d = &file_dependencies[i];
            assert(pairs[i as int] == (d.from@, d.to@));
            let from = match d.from.module() {
                Ok(from_module) => from_module,
                Err(e) => {
                    proof {
                        lemma_first_without_module_found(pairs, i as int, pairs.len() as int);
                    }
                    return Err(
                        DependencyListFromRepositoryAnalyzeFileError::CouldNotConvertFilePathToModule(
                            e,
                        ),
                    );
                },
            };
            let to = match d.to.module() {
                Ok(to_module) => to_module,
                Err(e) => {
                    proof {
                        lemma_first_without_module_found(pairs, i as int, pairs.len() as int);
                    }
                    return Err(
                        DependencyListFromRepositoryAnalyzeFileError::CouldNotConvertFilePathToModule(
                            e,
                        ),
                    );
                },
            };
            if from != to {
                let ghost before = files_on_modules(out@);
                let source = d.from.clone();
                out.push(Dependency::create(source, to));
                assert(files_on_modules(out@) =~= before.push((d.from@, to@)));
            }
            i += 1;
        }
        Ok(out)
    }

    /// The dependencies of one entry of the tree on the modules of other
    /// files. An entry that is no source file gives none.
    pub fn of_entry(entry: ScannedEntry) -> (r: Result<
        Vec<Dependency<RepositoryChildPath, Module>>,
        DependencyListFromRepositoryAnalyzeFileError,
    >)
        ensures
            match entry_pairs(entry) {
                Some(pairs) => r matches Ok(edges) && files_on_modules(edges@) == module_imports(
                    pairs,
                    pairs.len() as int,
                ),
                None => r matches Err(e) && is_entry_error(entry, e),
            },
    {
        match DependencyList::<RepositoryChildPath, RepositoryChildPath>::of_entry(entry) {
            Ok(file_dependencies) => {
                proof {
                    let pairs = path_pairs(file_dependencies@);
                    assert(entry_pairs(entry) == Some(pairs));
                    assert(first_without_module(pairs, pairs.len() as int) is None);
                }
                DependencyList::<RepositoryChildPath, Module>::of_file(&file_dependencies)
            },
            Err(e) => Err(e),
        }
    }
}

impl<TFrom: Render, TTo: Render> DependencyList<TFrom, TTo> {
    /// The set of the dependencies that the entries of a tree gave, each
    /// analysed on its own. Where some entries failed, the failures of all of
    /// them are returned, in order, and no dependency is.
    pub fn from_results(
        results: Vec<
            Result<Vec<Dependency<TFrom, TTo>>, DependencyListFromRepositoryAnalyzeFileError>,
        >,
    ) -> (r: Result<Self, DependencyListFromRepositoryError>)
        ensures
            if errors_in(results@).len() > 0 {
                r matches Err(DependencyListFromRepositoryError::InvalidFiles(errors)) && errors@
                    == errors_in(results@)
            } else {
                r matches Ok(list) && list@ == first_of_each(edges_in(results@))
            },
    {
        let ghost all = results@;
        let mut list = DependencyList::new();
        let mut errors: Vec<DependencyListFromRepositoryAnalyzeFileError> = Vec::new();
        assert(all.take(0) =~= Seq::<
            Result<Vec<Dependency<TFrom, TTo>>, DependencyListFromRepositoryAnalyzeFileError>,
        >::empty());
        for result in it: results
            invariant
                it.seq() == all,
                errors@ == errors_in(all.take(it.index() as int)),
                list@ == first_of_each(edges_in(all.take(it.index() as int))),
        {
            let ghost n = it.index() as int;
            let ghost done = edges_in(all.take(n));
            proof {
                let upto = all.take(n + 1);
                assert(upto.drop_last() =~= all.take(n));
                assert(upto.last() == result);
            }
            match result {
                Ok(edges) => {
                    let ghost these = edges@;
                    assert(these.take(0) =~= Seq::<Dependency<TFrom, TTo>>::empty());
                    assert(done + these.take(0) =~= done);
                    for edge in inner: edges
                        invariant
                            inner.seq() == these,
                            list@ == first_of_each(done + these.take(inner.index() as int)),
                    {
                        proof {
                            let k = inner.index() as int;
                            let upto = done + these.take(k + 1);
                            assert(upto.drop_last() =~= done + these.take(k));
                            assert(upto.last() == edge);
                        }
                        list = list.with(edge);
                    }
                    assert(these.take(these.len() as int) =~= these);
                },
                Err(e) => {
                    errors.push(e);
                },
            }
        }
        assert(all.take(all.len() as int) =~= all);
        if errors.len() > 0 {
            return Err(DependencyListFromRepositoryError::InvalidFiles(errors));
        }
        Ok(list)
    }
}

} // verus!
