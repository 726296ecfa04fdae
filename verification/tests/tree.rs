use belmarsh::commands::{StatisticsCommand, StatisticsCommandError};
use belmarsh::dependency::list::DependencyList;
use belmarsh::dependency::tree::{
    DependencyListFromRepositoryAnalyzeFileError, DependencyListFromRepositoryError,
    DependencyListFromRepositoryFileError, ScannedEntry, ScannedFile,
};
use belmarsh::dependency::Dependency;
use belmarsh::file_path::{FilePath, FilePathContentsError, FilePathFromEntryError, FilePathFromPathBufError};
use belmarsh::import_path::ImportPath;
use belmarsh::module::Module;
use belmarsh::module_mapping::ModuleMappings;
use belmarsh::render::Render;
use belmarsh::repository::child::{
    RepositoryChildPath, RepositoryChildPathFromFilePathError, RepositoryChildPathFromPathError,
    RepositoryChildPathFromRepositoryFileError, RepositoryChildPathModuleError,
};
use belmarsh::repository::file::{
    RepositoryFile, RepositoryFileFromEntryError, RepositoryFileResolveImportsError,
};
use belmarsh::repository::path::RepositoryPath;
use belmarsh::repository::RepositoryFilesError;
use belmarsh::segment::{PathSegment, SegmentPath};

fn path(text: &str) -> SegmentPath {
    let mut segments = Vec::new();
    if text.starts_with('/') {
        segments.push(PathSegment::RootDir);
    }
    for part in text.split('/') {
        if !part.is_empty() {
            segments.push(PathSegment::Normal(part.to_string()));
        }
    }
    SegmentPath::from_segments(segments)
}

fn root() -> RepositoryPath {
    RepositoryPath::new(path("/work/repo"))
}

fn file(text: &str) -> RepositoryFile {
    let file_path = FilePath::try_from(path(text), true, Ok(path(text))).unwrap();
    RepositoryFile::new(file_path, &root(), ModuleMappings::new())
}

fn imports(targets: &[&str]) -> Vec<ImportPath> {
    targets.iter().map(|t| ImportPath::new(path(t))).collect()
}

fn scanned(text: &str, targets: &[&str]) -> ScannedEntry {
    Ok(ScannedFile { file: file(text), imports: Ok(imports(targets)) })
}

fn unreadable(text: &str) -> ScannedEntry {
    let f = file(text);
    let e = f.file_path().contents_error("permission denied".to_string());
    Ok(ScannedFile { file: f, imports: Err(RepositoryFileResolveImportsError::CannotGetContents(e)) })
}

fn not_a_source_file(text: &str) -> ScannedEntry {
    let e = FilePath::try_from_entry(path(text), true, Ok(path(text))).unwrap_err();
    Err(RepositoryFilesError::CannotAnalyzeFile(RepositoryFileFromEntryError::FilePathError(e)))
}

fn printed<F: Render, T: Render>(list: &DependencyList<F, T>) -> Vec<String> {
    list.as_ref().iter().map(|d| d.render()).collect()
}

#[test]
fn a_file_depends_on_the_targets_of_its_imports() {
    let f = file("/work/repo/users/api/client.ts");
    let list = DependencyList::<RepositoryChildPath, RepositoryChildPath>::try_from(
        &f,
        Ok(imports(&["/work/repo/core/index.ts", "/work/repo/users/model.ts"])),
    )
    .unwrap();
    assert_eq!(
        printed(&list),
        vec!["users/api/client.ts > core/index.ts", "users/api/client.ts > users/model.ts"]
    );
}

#[test]
fn imports_from_outside_the_tree_are_left_out() {
    let f = file("/work/repo/users/x.ts");
    let list = DependencyList::<RepositoryChildPath, RepositoryChildPath>::try_from(
        &f,
        Ok(imports(&[
            "/work/node_modules/left-pad/index.ts",
            "/work/repo/core/index.ts",
            "/usr/lib/x.ts",
            "/work/repo/core/index.ts",
        ])),
    )
    .unwrap();
    assert_eq!(printed(&list), vec!["users/x.ts > core/index.ts"]);
    let none = DependencyList::<RepositoryChildPath, RepositoryChildPath>::try_from(&f, Ok(vec![]))
        .unwrap();
    assert_eq!(none.len(), 0);
}

#[test]
fn a_file_outside_the_tree_has_no_dependencies_to_give() {
    let f = file("/elsewhere/x.ts");
    let r = DependencyList::<RepositoryChildPath, RepositoryChildPath>::try_from(
        &f,
        Err(RepositoryFileResolveImportsError::Io("broken pipe".to_string(), "/elsewhere/x.ts".to_string())),
    );
    match r {
        Err(DependencyListFromRepositoryFileError::CouldNotLocateFileWithinRepository(
            RepositoryChildPathFromRepositoryFileError::FilePath(
                RepositoryChildPathFromFilePathError::Path(
                    RepositoryChildPathFromPathError::ImportOutsideRoot(p),
                ),
            ),
        )) => assert_eq!(p, "/elsewhere/x.ts"),
        other => panic!("unexpected {other:?}"),
    }
}

#[test]
fn a_file_whose_imports_cannot_be_read_has_no_dependencies_to_give() {
    let f = file("/work/repo/a/x.ts");
    let r = DependencyList::<RepositoryChildPath, RepositoryChildPath>::try_from(
        &f,
        Err(RepositoryFileResolveImportsError::Io("broken pipe".to_string(), "/work/repo/a/x.ts".to_string())),
    );
    match r {
        Err(DependencyListFromRepositoryFileError::CouldNotReadImports(
            RepositoryFileResolveImportsError::Io(cause, p),
        )) => {
            assert_eq!(cause, "broken pipe");
            assert_eq!(p, "/work/repo/a/x.ts");
        }
        other => panic!("unexpected {other:?}"),
    }
}

#[test]
fn modules_depend_on_each_other_through_their_files() {
    let f = file("/work/repo/users/api/client.ts");
    let list = DependencyList::<RepositoryChildPath, RepositoryChildPath>::try_from(
        &f,
        Ok(imports(&[
            "/work/repo/core/index.ts",
            "/work/repo/users/model.ts",
            "/work/repo/core/util.ts",
            "/work/repo/billing/index.ts",
        ])),
    )
    .unwrap();
    let edges = DependencyList::<Module, Module>::of_file(list.as_ref()).unwrap();
    let lines: Vec<String> = edges.iter().map(|d| d.render()).collect();
    assert_eq!(lines, vec!["users > core", "users > core", "users > billing"]);
}

#[test]
fn an_endpoint_without_module_is_refused() {
    let f = file("/work/repo/users/x.ts");
    let list = DependencyList::<RepositoryChildPath, RepositoryChildPath>::try_from(
        &f,
        Ok(imports(&["/work/repo/core/index.ts", "/work/repo"])),
    )
    .unwrap();
    match DependencyList::<Module, Module>::of_file(list.as_ref()) {
        Err(DependencyListFromRepositoryAnalyzeFileError::CouldNotConvertFilePathToModule(
            RepositoryChildPathModuleError::CouldNotGetModule(p),
        )) => assert_eq!(p, ""),
        other => panic!("unexpected {other:?}"),
    }
}

#[test]
fn the_module_graph_of_a_tree_has_each_dependency_once() {
    let list = DependencyList::<Module, Module>::try_from(vec![
        scanned("/work/repo/users/a.ts", &["/work/repo/core/index.ts", "/work/repo/users/b.ts"]),
        not_a_source_file("/work/repo/README.md"),
        scanned("/work/repo/users/b.ts", &["/work/repo/core/util.ts"]),
        scanned("/work/repo/core/index.ts", &["/work/repo/core/util.ts", "/work/vendor/x.ts"]),
        scanned("/work/repo/billing/index.ts", &["/work/repo/users/a.ts", "/work/repo/core/index.ts"]),
    ])
    .unwrap();
    assert_eq!(printed(&list), vec!["users > core", "billing > users", "billing > core"]);
}

#[test]
fn the_file_graph_of_a_tree_has_each_dependency_once() {
    let list = DependencyList::<RepositoryChildPath, RepositoryChildPath>::from_entries(vec![
        scanned("/work/repo/users/a.ts", &["/work/repo/core/index.ts", "/work/repo/users/b.ts"]),
        not_a_source_file("/work/repo/users"),
        scanned("/work/repo/users/b.ts", &["/work/repo/users/a.ts", "/work/repo/users/a.ts"]),
    ])
    .unwrap();
    assert_eq!(
        printed(&list),
        vec!["users/a.ts > core/index.ts", "users/a.ts > users/b.ts", "users/b.ts > users/a.ts"]
    );
}

#[test]
fn an_empty_tree_has_an_empty_graph() {
    assert_eq!(DependencyList::<Module, Module>::try_from(vec![]).unwrap().len(), 0);
    let only_other_files = vec![not_a_source_file("/work/repo/a.md"), not_a_source_file("/work/repo/b")];
    assert_eq!(DependencyList::<Module, Module>::try_from(only_other_files).unwrap().len(), 0);
}

#[test]
fn the_failures_of_all_files_are_reported_together() {
    let r = DependencyList::<Module, Module>::try_from(vec![
        scanned("/work/repo/users/a.ts", &["/work/repo/core/index.ts"]),
        unreadable("/work/repo/users/b.ts"),
        scanned("/work/repo/core/index.ts", &["/work/repo/core/util.ts"]),
        scanned("/work/repo/core/c.ts", &["/work/repo"]),
    ]);
    let DependencyListFromRepositoryError::InvalidFiles(errors) = r.unwrap_err();
    assert_eq!(errors.len(), 2);
    match &errors[0] {
        DependencyListFromRepositoryAnalyzeFileError::CouldNotGetDependencyList(
            DependencyListFromRepositoryFileError::CouldNotReadImports(
                RepositoryFileResolveImportsError::CannotGetContents(FilePathContentsError::Io(cause, p)),
            ),
        ) => {
            assert_eq!(cause, "permission denied");
            assert_eq!(p, "/work/repo/users/b.ts");
        }
        other => panic!("unexpected {other:?}"),
    }
    match &errors[1] {
        DependencyListFromRepositoryAnalyzeFileError::CouldNotConvertFilePathToModule(
            RepositoryChildPathModuleError::CouldNotGetModule(p),
        ) => assert_eq!(p, ""),
        other => panic!("unexpected {other:?}"),
    }
}

#[test]
fn a_failed_walk_fails_the_build() {
    let entries = vec![
        Err(RepositoryFilesError::CannotScanFiles("permission denied: /work/repo/secret".to_string())),
        scanned("/work/repo/users/a.ts", &["/work/repo/core/index.ts"]),
    ];
    let DependencyListFromRepositoryError::InvalidFiles(errors) =
        DependencyList::<RepositoryChildPath, RepositoryChildPath>::from_entries(entries).unwrap_err();
    assert_eq!(errors.len(), 1);
    match &errors[0] {
        DependencyListFromRepositoryAnalyzeFileError::CouldNotScanFile(
            RepositoryFilesError::CannotScanFiles(cause),
        ) => assert_eq!(cause, "permission denied: /work/repo/secret"),
        other => panic!("unexpected {other:?}"),
    }
}

#[test]
fn results_of_files_analysed_apart_are_put_together() {
    let first = DependencyList::<Module, Module>::of_entry(scanned(
        "/work/repo/users/a.ts",
        &["/work/repo/core/index.ts"],
    ));
    let second = DependencyList::<Module, Module>::of_entry(not_a_source_file("/work/repo/x.md"));
    let third = DependencyList::<Module, Module>::of_entry(scanned(
        "/work/repo/users/b.ts",
        &["/work/repo/core/util.ts", "/work/repo/billing/index.ts"],
    ));
    let list = DependencyList::from_results(vec![first, second, third]).unwrap();
    assert_eq!(printed(&list), vec!["users > core", "users > billing"]);

    let failed = DependencyList::<Module, Module>::of_entry(unreadable("/work/repo/users/c.ts"));
    let fine = DependencyList::<Module, Module>::of_entry(scanned("/work/repo/users/a.ts", &[]));
    let also_failed = DependencyList::<Module, Module>::of_entry(scanned("/elsewhere/a.ts", &[]));
    let DependencyListFromRepositoryError::InvalidFiles(errors) =
        DependencyList::from_results(vec![failed, fine, also_failed]).unwrap_err();
    assert_eq!(errors.len(), 2);
    assert!(matches!(
        errors[1],
        DependencyListFromRepositoryAnalyzeFileError::CouldNotGetDependencyList(
            DependencyListFromRepositoryFileError::CouldNotLocateFileWithinRepository(_)
        )
    ));
}

#[test]
fn an_entry_gives_file_dependencies_with_modules() {
    let edges = DependencyList::<RepositoryChildPath, RepositoryChildPath>::of_entry(scanned(
        "/work/repo/users/a.ts",
        &["/work/repo/core/index.ts", "/work/repo/core/index.ts"],
    ))
    .unwrap();
    assert_eq!(edges.len(), 1);
    assert!(!edges[0].is_internal());
    assert!(edges[0].to.is_barrel());
    let at_root = DependencyList::<RepositoryChildPath, RepositoryChildPath>::of_entry(scanned(
        "/work/repo/users/a.ts",
        &["/work/repo"],
    ));
    assert!(matches!(
        at_root,
        Err(DependencyListFromRepositoryAnalyzeFileError::CouldNotConvertFilePathToModule(_))
    ));
    let e = FilePathFromEntryError::IncorrectPath(FilePathFromPathBufError::NotAValidFile("x".to_string()));
    let skipped = DependencyList::<RepositoryChildPath, RepositoryChildPath>::of_entry(Err(
        RepositoryFilesError::CannotAnalyzeFile(RepositoryFileFromEntryError::FilePathError(e)),
    ));
    assert_eq!(skipped.unwrap().len(), 0);
    let _unused: Dependency<Module, Module> =
        Dependency::create(Module::from("a".to_string()), Module::from("b".to_string()));
}

#[test]
fn imports_from_other_modules_are_counted() {
    let f = file("/work/repo/users/a.ts");
    let count = StatisticsCommand::count(
        &f,
        &imports(&[
            "/work/repo/core/index.ts",
            "/work/repo/users/b.ts",
            "/work/vendor/x.ts",
            "/work/repo/core/index.ts",
            "/work/repo/billing/x.ts",
        ]),
    )
    .unwrap();
    assert_eq!(count, 3);
    assert_eq!(StatisticsCommand::count(&f, &vec![]).unwrap(), 0);
    assert!(matches!(
        StatisticsCommand::count(&f, &imports(&["/work/repo/core/x.ts", "/work/repo"])),
        Err(StatisticsCommandError::InvalidModule(_))
    ));
    assert!(matches!(
        StatisticsCommand::count(&file("/elsewhere/a.ts"), &vec![]),
        Err(StatisticsCommandError::CannotGetModuleForRepositoryFile(_))
    ));
}

#[test]
fn a_file_depends_on_the_modules_of_the_files_it_imports() {
    let edges = DependencyList::<RepositoryChildPath, Module>::of_entry(scanned(
        "/work/repo/users/a.ts",
        &["/work/repo/core/index.ts", "/work/repo/users/b.ts", "/work/repo/billing/x.ts"],
    ))
    .unwrap();
    let lines: Vec<String> = edges.iter().map(|d| d.render()).collect();
    assert_eq!(lines, vec!["users/a.ts > core", "users/a.ts > billing"]);
    let refused = DependencyList::<RepositoryChildPath, Module>::of_entry(scanned(
        "/work/repo/users/a.ts",
        &["/work/repo"],
    ));
    assert!(matches!(
        refused,
        Err(DependencyListFromRepositoryAnalyzeFileError::CouldNotConvertFilePathToModule(_))
    ));
    let file_edges = DependencyList::<RepositoryChildPath, RepositoryChildPath>::try_from(
        &file("/work/repo/users/a.ts"),
        Ok(imports(&["/work/repo/core/index.ts"])),
    )
    .unwrap();
    let on_modules =
        DependencyList::<RepositoryChildPath, Module>::of_file(file_edges.as_ref()).unwrap();
    assert_eq!(on_modules.len(), 1);
    assert!(on_modules[0].is_from_module("users"));
}
