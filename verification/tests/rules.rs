use belmarsh::commands::{GraphCommand, InspectCommand, Rule, ValidateCommand};
use belmarsh::dependency::chain::DependencyChain;
use belmarsh::dependency::list::DependencyList;
use belmarsh::dependency::Dependency;
use belmarsh::module::Module;
use belmarsh::render::Render;
use belmarsh::repository::child::RepositoryChildPath;
use belmarsh::repository::path::RepositoryPath;
use belmarsh::segment::{PathSegment, SegmentPath};
use belmarsh::validate::{
    circular_dependencies, validate_barrel_imports_barrel, validate_circular_files,
    validate_circular_modules, validate_external_barrel_imports, ValidationFailure,
};

fn path(text: &str) -> SegmentPath {
    let mut segments = Vec::new();
    if text.starts_with('/') {
        segments.push(PathSegment::RootDir);
    }
    for part in text.split('/') {
        if !part.is_empty() {
            segments.push(PathSegment::Normal(part.to_string()));
        }
    }
    SegmentPath::from_segments(segments)
}

fn child(relative: &str) -> RepositoryChildPath {
    let root = RepositoryPath::new(path("/work/repo"));
    RepositoryChildPath::from_path(&root.resolve(&path(relative)), &root).unwrap()
}

fn files(edges: &[(&str, &str)]) -> DependencyList<RepositoryChildPath, RepositoryChildPath> {
    DependencyList::from_edges(
        edges.iter().map(|(from, to)| Dependency::create(child(from), child(to))).collect(),
    )
}

fn modules(edges: &[(&str, &str)]) -> DependencyList<Module, Module> {
    DependencyList::from_edges(
        edges
            .iter()
            .map(|(from, to)| {
                Dependency::create(Module::from(from.to_string()), Module::from(to.to_string()))
            })
            .collect(),
    )
}

fn printed(failures: &[ValidationFailure]) -> Vec<String> {
    let mut lines: Vec<String> = failures.iter().map(|f| f.render()).collect();
    lines.sort();
    lines
}

#[test]
fn an_import_of_another_module_must_go_through_its_barrel() {
    let failures = validate_external_barrel_imports(&files(&[("B/index.ts", "A/util.ts")]));
    assert_eq!(
        printed(&failures),
        vec!["External import does not use a barrel file: B/index.ts > A/util.ts"]
    );
    assert!(matches!(failures[0], ValidationFailure::ExternalBarrelImport(_)));
    let failures = validate_external_barrel_imports(&files(&[("B/index.ts", "A/index.ts")]));
    assert_eq!(failures.len(), 0);
}

#[test]
fn imports_within_a_module_need_no_barrel() {
    let failures = validate_external_barrel_imports(&files(&[
        ("A/index.ts", "A/util.ts"),
        ("A/deep/x.ts", "A/other/y.ts"),
        ("B/x.ts", "A/testing.ts"),
        ("B/x.ts", "A/deep/index.ts"),
        ("B/x.ts", "A/deep/util.ts"),
        ("C/x.ts", "B/x.ts"),
    ]));
    assert_eq!(
        printed(&failures),
        vec![
            "External import does not use a barrel file: B/x.ts > A/deep/util.ts",
            "External import does not use a barrel file: C/x.ts > B/x.ts",
        ]
    );
}

#[test]
fn a_barrel_may_not_import_a_barrel() {
    let failures = validate_barrel_imports_barrel(&files(&[("A/index.ts", "B/index.ts")]));
    assert_eq!(
        printed(&failures),
        vec!["Barrel file imports another barrel file: A/index.ts > B/index.ts"]
    );
    assert!(matches!(failures[0], ValidationFailure::BarrelImportsBarrel(_)));
}

#[test]
fn a_barrel_may_not_import_a_barrel_of_its_own_module_either() {
    let failures = validate_barrel_imports_barrel(&files(&[
        ("A/index.ts", "A/sub/index.ts"),
        ("A/testing.ts", "A/index.ts"),
        ("A/index.ts", "A/util.ts"),
        ("A/util.ts", "B/index.ts"),
        ("A/index.ts", "B/testing.ts"),
    ]));
    assert_eq!(
        printed(&failures),
        vec![
            "Barrel file imports another barrel file: A/index.ts > A/sub/index.ts",
            "Barrel file imports another barrel file: A/index.ts > B/testing.ts",
            "Barrel file imports another barrel file: A/testing.ts > A/index.ts",
        ]
    );
}

#[test]
fn every_breach_is_reported_in_the_order_of_the_set() {
    let list = files(&[
        ("A/index.ts", "B/index.ts"),
        ("A/x.ts", "B/y.ts"),
        ("B/index.ts", "C/index.ts"),
        ("B/y.ts", "C/z.ts"),
    ]);
    let barrels: Vec<String> =
        validate_barrel_imports_barrel(&list).iter().map(|f| f.render()).collect();
    assert_eq!(
        barrels,
        vec![
            "Barrel file imports another barrel file: A/index.ts > B/index.ts",
            "Barrel file imports another barrel file: B/index.ts > C/index.ts",
        ]
    );
    let external: Vec<String> =
        validate_external_barrel_imports(&list).iter().map(|f| f.render()).collect();
    assert_eq!(
        external,
        vec![
            "External import does not use a barrel file: A/x.ts > B/y.ts",
            "External import does not use a barrel file: B/y.ts > C/z.ts",
        ]
    );
}

#[test]
fn circular_modules_are_reported_once_each() {
    let failures = validate_circular_modules(&modules(&[
        ("users", "core"),
        ("core", "billing"),
        ("billing", "users"),
        ("billing", "core"),
        ("shared", "core"),
    ]));
    assert_eq!(
        printed(&failures),
        vec![
            "Circular dependency: billing > core > billing",
            "Circular dependency: billing > users > core > billing",
        ]
    );
    assert_eq!(validate_circular_modules(&modules(&[("a", "b"), ("b", "c"), ("a", "c")])).len(), 0);
    assert_eq!(validate_circular_modules(&modules(&[])).len(), 0);
}

#[test]
fn circular_files_are_found_where_modules_show_none() {
    let list = files(&[
        ("a/x.ts", "a/y.ts"),
        ("a/y.ts", "a/x.ts"),
        ("a/x.ts", "b/index.ts"),
    ]);
    assert_eq!(
        printed(&validate_circular_files(&list)),
        vec!["Circular dependency: a/x.ts > a/y.ts > a/x.ts"]
    );
    assert_eq!(printed(&circular_dependencies(&list)), printed(&validate_circular_files(&list)));
}

#[test]
fn a_failure_is_printed_as_a_line() {
    let chain = DependencyChain::new(vec!["a".to_string(), "b".to_string(), "a".to_string()]);
    assert_eq!(
        ValidationFailure::CircularDependency(chain).render(),
        "Circular dependency: a > b > a"
    );
    let d = Dependency::create(child("a/x.ts"), child("b/y.ts"));
    assert_eq!(
        ValidationFailure::ExternalBarrelImport(d.clone()).render(),
        "External import does not use a barrel file: a/x.ts > b/y.ts"
    );
    assert_eq!(
        ValidationFailure::BarrelImportsBarrel(d).render(),
        "Barrel file imports another barrel file: a/x.ts > b/y.ts"
    );
}

#[test]
fn running_with_no_rule_named_runs_every_rule() {
    let all = [
        Rule::CircularModules,
        Rule::CircularFiles,
        Rule::ExternalBarrelImports,
        Rule::BarrelImportsBarrel,
    ];
    let mut command = ValidateCommand {
        repository_path: "repo".to_string(),
        circular_modules: false,
        circular_files: false,
        external_barrel_imports: false,
        barrel_imports_barrel: false,
        module_mapping_params: vec![],
    };
    assert!(command.run_all());
    for rule in all {
        assert!(command.runs(rule));
    }
    command.circular_files = true;
    assert!(!command.run_all());
    assert!(command.runs(Rule::CircularFiles));
    assert!(!command.runs(Rule::CircularModules));
    assert!(!command.runs(Rule::ExternalBarrelImports));
    assert!(!command.runs(Rule::BarrelImportsBarrel));
    command.barrel_imports_barrel = true;
    assert!(command.runs(Rule::BarrelImportsBarrel));
    assert!(!command.runs(Rule::CircularModules));
}

#[test]
fn a_graph_is_drawn_between_an_opening_and_a_closing_line() {
    let lines = GraphCommand::lines(&modules(&[("users", "core"), ("core", "billing")]));
    assert_eq!(
        lines,
        vec!["digraph G {", "  \"users\" -> \"core\";", "  \"core\" -> \"billing\";", "}"]
    );
    assert_eq!(GraphCommand::lines(&modules(&[])), vec!["digraph G {", "}"]);
}

#[test]
fn inspection_lists_the_dependencies_of_the_named_module() {
    let mut command = InspectCommand {
        repository_path: "repo".to_string(),
        filter_from: None,
        skip_folders: vec![],
        module_mapping: vec![],
    };
    let d = Dependency::create(child("users/x.ts"), Module::from("core".to_string()));
    assert!(command.lists(&d));
    command.filter_from = Some("users".to_string());
    assert!(command.lists(&d));
    command.filter_from = Some("core".to_string());
    assert!(!command.lists(&d));
}
