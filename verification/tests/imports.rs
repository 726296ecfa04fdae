use belmarsh::file_path::FilePath;
use belmarsh::import_path::ImportPathFromImportStringError;
use belmarsh::module_mapping::ModuleMappings;
use belmarsh::repository::file::{
    collect_present, ImportMatcher, RepositoryFile, RepositoryFileFromEntryError,
    RepositoryFileModuleError, RepositoryFileResolveImportsError, IMPORT_PATTERN,
};
use belmarsh::repository::path::RepositoryPath;
use belmarsh::repository::{Repository, RepositoryFromStringError};
use belmarsh::segment::{PathSegment, SegmentPath};

fn path(text: &str) -> SegmentPath {
    let mut segments = Vec::new();
    if text.starts_with('/') {
        segments.push(PathSegment::RootDir);
    }
    for part in text.split('/') {
        if !part.is_empty() {
            segments.push(PathSegment::Normal(part.to_string()));
        }
    }
    SegmentPath::from_segments(segments)
}

fn file_with(text: &str, rules: &[&str]) -> RepositoryFile {
    let file_path = FilePath::try_from(path(text), true, Ok(path(text))).unwrap();
    let mappings =
        ModuleMappings::from_param_strings(rules.iter().map(|r| r.to_string()).collect()).unwrap();
    RepositoryFile::new(file_path, &RepositoryPath::new(path("/work/repo")), mappings)
}

fn matcher() -> ImportMatcher {
    ImportMatcher::new().unwrap()
}

fn lines(text: &[&str]) -> Vec<String> {
    text.iter().map(|l| l.to_string()).collect()
}

#[test]
fn the_pattern_is_that_of_a_single_line_import() {
    assert_eq!(IMPORT_PATTERN, r"import\s*\{[^}]*\}\s*from\s*'(\.[^']+)';");
}

#[test]
fn import_statements_name_relative_paths() {
    let file = file_with("/work/repo/a/x.ts", &[]);
    let found = file
        .import_literals(&matcher(), &lines(&[
            "import { a } from './a';",
            "import {b, c} from '../b/index';",
            "  import{d}from'./d.ts';",
            "const e = 1;",
            "import { f } from './f'; import { g } from './g';",
        ]));
    assert_eq!(found, vec!["./a", "../b/index", "./d.ts", "./f"]);
}

#[test]
fn other_forms_of_import_are_not_seen() {
    let file = file_with("/work/repo/a/x.ts", &[]);
    let found = file
        .import_literals(&matcher(), &lines(&[
            "import a from './a';",
            "import * as b from './b';",
            "import { c } from 'c';",
            "import { d } from \"./d\";",
            "import { e } from './e'",
            "import { f,",
            "} from './f';",
            "import './g';",
            "const h = await import('./h');",
            "import { i } from '';",
            "import { j } from '.';",
        ]));
    assert_eq!(found, Vec::<String>::new());
    assert_eq!(file.import_literals(&matcher(), &lines(&[])), Vec::<String>::new());
}

#[test]
fn aliases_are_rewritten_before_a_line_is_matched() {
    let file = file_with("/work/repo/a/x.ts", &["@lib:./packages/lib"]);
    let found = file
        .import_literals(&matcher(), &lines(&[
            "import { a } from '@lib/a';",
            "import { b } from '@other/b';",
        ]));
    assert_eq!(found, vec!["./packages/lib/a"]);
    let plain = file_with("/work/repo/a/x.ts", &[]);
    assert_eq!(
        plain.import_literals(&matcher(), &lines(&["import { a } from '@lib/a';"])),
        Vec::<String>::new()
    );
}

#[test]
fn collect_present_keeps_what_is_there() {
    assert_eq!(
        collect_present(vec![None, Some("./a".to_string()), None, Some("./b".to_string())]),
        vec!["./a", "./b"]
    );
    assert_eq!(collect_present(vec![None, None]), Vec::<String>::new());
}

#[test]
fn imports_that_name_no_file_are_left_out() {
    let file = file_with("/work/repo/a/x.ts", &[]);
    let literals = lines(&["./b", "./missing", "../c/index.ts"]);
    let resolved = vec![
        vec![Some(path("/work/repo/a/b.ts")), None, None, None],
        vec![None, None, None, None],
        vec![Some(path("/work/repo/c/index.ts"))],
    ];
    let (imports, skipped) = file.imports(&literals, &resolved);
    let rendered: Vec<String> = imports.iter().map(|i| i.as_path().render()).collect();
    assert_eq!(rendered, vec!["/work/repo/a/b.ts", "/work/repo/c/index.ts"]);
    assert_eq!(skipped.len(), 1);
    match &skipped[0] {
        RepositoryFileResolveImportsError::ParseImportPath(
            ImportPathFromImportStringError::CannotFindFile(p),
            importer,
        ) => {
            assert_eq!(p, "/work/repo/a/./missing");
            assert_eq!(importer.as_path().render(), "/work/repo/a/x.ts");
        }
        other => panic!("unexpected {other:?}"),
    }
}

#[test]
fn a_literal_without_probes_names_no_file() {
    let file = file_with("/work/repo/a/x.ts", &[]);
    let (imports, skipped) = file.imports(&lines(&["./b", "./c"]), &vec![]);
    assert_eq!(imports.len(), 0);
    assert_eq!(skipped.len(), 2);
}

#[test]
fn the_module_of_a_file_is_its_first_folder() {
    assert_eq!(file_with("/work/repo/users/api/x.ts", &[]).module().unwrap().as_str(), "users");
    let outside = file_with("/elsewhere/users/x.ts", &[]);
    assert!(matches!(outside.module(), Err(RepositoryFileModuleError::FilePath(_))));
    let root = RepositoryPath::new(path("/work/repo"));
    let at_root = RepositoryFile::new(
        FilePath::try_from(path("/work/x.ts"), true, Ok(path("/work/repo"))).unwrap(),
        &root,
        ModuleMappings::new(),
    );
    assert!(matches!(at_root.module(), Err(RepositoryFileModuleError::Module(_))));
}

#[test]
fn an_entry_that_is_no_source_file_is_no_file_of_the_tree() {
    let root = RepositoryPath::new(path("/work/repo"));
    let entry = FilePath::try_from_entry(path("/work/repo/README.md"), true, Ok(path("/work/repo/README.md")));
    assert!(matches!(
        RepositoryFile::try_from_entry(entry, &root, ModuleMappings::new()),
        Err(RepositoryFileFromEntryError::FilePathError(_))
    ));
    let entry = FilePath::try_from_entry(path("/work/repo/a/x.ts"), true, Ok(path("/work/repo/a/x.ts")));
    let file = RepositoryFile::try_from_entry(entry, &root, ModuleMappings::new()).unwrap();
    assert_eq!(file.file_path().as_path().render(), "/work/repo/a/x.ts");
    assert_eq!(file.base_path().as_path().render(), "/work/repo");
    assert_eq!(file.import_mappings().len(), 0);
}

#[test]
fn folders_to_skip_are_matched_by_name() {
    let repository = Repository::new(
        RepositoryPath::new(path("/work/repo")),
        ModuleMappings::new(),
        vec!["node_modules".to_string(), "dist".to_string()],
    );
    assert!(repository.skips("node_modules"));
    assert!(repository.skips("dist"));
    assert!(!repository.skips("node_module"));
    assert!(!repository.skips("src"));
    assert!(!repository.skips(""));
    assert_eq!(repository.path().as_path().render(), "/work/repo");
    assert_eq!(repository.skip_folders().len(), 2);
    assert_eq!(repository.mappings().len(), 0);
    assert!(repository.clone().skips("dist"));
}

#[test]
fn a_repository_from_a_root_alone_skips_nothing() {
    let repository = Repository::try_from(Ok(RepositoryPath::new(path("/work/repo")))).unwrap();
    assert!(!repository.skips("node_modules"));
    let failed = belmarsh::repository::path::RepositoryPath::try_from(
        "nowhere".to_string(),
        Err("not found".to_string()),
    );
    assert!(matches!(
        Repository::try_from(failed),
        Err(RepositoryFromStringError::CouldNotCreateRepositoryPath(_))
    ));
}

#[test]
fn the_matcher_is_made_once_and_names_the_path_of_each_line() {
    let made = matcher();
    assert_eq!(made.literal("import { a } from './a';"), Some("./a".to_string()));
    assert_eq!(made.literal("  import {a,b} from '../b/c.ts'; // two"), Some("../b/c.ts".to_string()));
    assert_eq!(made.literal("import { a } from 'a';"), None);
    assert_eq!(made.literal("export { a } from './a';"), None);
    assert_eq!(made.literal(""), None);
    let file = file_with("/work/repo/a/x.ts", &[]);
    let first = file.import_literals(&made, &lines(&["import { a } from './a';"]));
    let second = file.import_literals(&made, &lines(&["import { b } from './b';", "x"]));
    assert_eq!(first, vec!["./a"]);
    assert_eq!(second, vec!["./b"]);
}
