use belmarsh::dependency::list::DependencyList;
use belmarsh::dependency::Dependency;
use belmarsh::module::Module;
use belmarsh::render::Render;
use belmarsh::repository::child::RepositoryChildPath;
use belmarsh::repository::path::RepositoryPath;
use belmarsh::segment::{PathSegment, SegmentPath};

fn path(text: &str) -> SegmentPath {
    let mut segments = Vec::new();
    if text.starts_with('/') {
        segments.push(PathSegment::RootDir);
    }
    for part in text.split('/') {
        if !part.is_empty() {
            segments.push(PathSegment::Normal(part.to_string()));
        }
    }
    SegmentPath::from_segments(segments)
}

fn child(relative: &str) -> RepositoryChildPath {
    let root = RepositoryPath::new(path("/work/repo"));
    RepositoryChildPath::from_path(&root.resolve(&path(relative)), &root).unwrap()
}

fn module(name: &str) -> Module {
    Module::from(name.to_string())
}

fn modules(from: &str, to: &str) -> Dependency<Module, Module> {
    Dependency::create(module(from), module(to))
}

fn files(from: &str, to: &str) -> Dependency<RepositoryChildPath, RepositoryChildPath> {
    Dependency::create(child(from), child(to))
}

#[test]
fn a_dependency_is_printed_with_an_arrow() {
    assert_eq!(modules("users", "core").render(), "users > core");
    assert_eq!(files("a/index.ts", "b/util.ts").render(), "a/index.ts > b/util.ts");
}

#[test]
fn a_dependency_is_drawn_as_a_quoted_edge() {
    assert_eq!(modules("users", "core").to_dot_format(), "  \"users\" -> \"core\";");
    assert_eq!(files("a/x.ts", "b/index.ts").to_dot_format(), "  \"a/x.ts\" -> \"b/index.ts\";");
}

#[test]
fn dependencies_are_equal_by_what_they_render_to() {
    assert!(modules("a", "b") == modules("a", "b"));
    assert!(modules("a", "b") != modules("b", "a"));
    assert!(modules("a", "b") != modules("a", "c"));
    assert!(files("a/x.ts", "b/y.ts") == files("a/x.ts", "b/y.ts"));
    let mixed: Dependency<String, Module> = Dependency::create("a".to_string(), module("b"));
    let same: Dependency<String, Module> = Dependency::create("a".to_string(), module("b"));
    assert!(mixed == same);
}

#[test]
fn a_module_dependency_is_internal_when_both_names_are_the_same() {
    for (from, to) in [("a", "a"), ("a", "b"), ("a", "A"), ("", ""), ("a", "a ")] {
        let d = modules(from, to);
        assert_eq!(d.is_internal(), d.from.render() == d.to.render(), "{from:?} {to:?}");
        assert_eq!(d.is_internal(), from == to);
        let (f, t) = (module(from), module(to));
        let borrowed = Dependency::create(&f, &t);
        assert_eq!(borrowed.is_internal(), from == to);
    }
}

#[test]
fn a_file_dependency_is_internal_when_both_files_lie_in_one_module() {
    let cases = [
        ("a/x.ts", "a/y.ts", true),
        ("a/x.ts", "a/deep/er/y.ts", true),
        ("a/x.ts", "b/x.ts", false),
        ("a/x.ts", "ab/x.ts", false),
        ("x.ts", "x.ts", true),
        ("x.ts", "y.ts", false),
    ];
    for (from, to, internal) in cases {
        let d = files(from, to);
        assert_eq!(d.is_internal(), internal, "{from} {to}");
        let by_name = d.from.module().unwrap().render() == d.to.module().unwrap().render();
        assert_eq!(d.is_internal(), by_name);
    }
}

#[test]
fn is_from_module_names_the_module_of_the_source() {
    let d = files("users/api/x.ts", "core/index.ts");
    assert!(d.is_from_module("users"));
    assert!(!d.is_from_module("core"));
    assert!(!d.is_from_module("user"));
    let to_module: Dependency<RepositoryChildPath, Module> =
        Dependency::create(child("users/x.ts"), module("core"));
    assert!(to_module.is_from_module("users"));
    let nowhere: Dependency<RepositoryChildPath, Module> =
        Dependency::create(child(""), module("core"));
    assert!(!nowhere.is_from_module(""));
}

#[test]
fn a_set_keeps_the_first_of_equal_dependencies() {
    let list = DependencyList::from_edges(vec![
        modules("a", "b"),
        modules("b", "c"),
        modules("a", "b"),
        modules("c", "a"),
        modules("b", "c"),
    ]);
    let printed: Vec<String> = list.as_ref().iter().map(|d| d.render()).collect();
    assert_eq!(printed, vec!["a > b", "b > c", "c > a"]);
    assert_eq!(list.len(), 3);
    assert!(list.contains(&modules("c", "a")));
    assert!(!list.contains(&modules("a", "c")));
    let more = list.with(modules("a", "b")).with(modules("a", "c"));
    assert_eq!(more.len(), 4);
    assert_eq!(more.into_edges().len(), 4);
    assert_eq!(DependencyList::<Module, Module>::new().len(), 0);
}

#[test]
fn grouping_lists_the_targets_of_each_source() {
    let list = DependencyList::from_edges(vec![
        modules("a", "b"),
        modules("b", "c"),
        modules("a", "c"),
        modules("c", "a"),
    ]);
    let grouped = list.group_by_from();
    assert_eq!(
        grouped,
        vec![
            ("a".to_string(), vec!["b".to_string(), "c".to_string()]),
            ("b".to_string(), vec!["c".to_string()]),
            ("c".to_string(), vec!["a".to_string()]),
        ]
    );
    assert_eq!(DependencyList::<Module, Module>::new().group_by_from(), vec![]);
}

#[test]
fn grouping_files_goes_by_their_printed_paths() {
    let list = DependencyList::from_edges(vec![
        files("a/index.ts", "a/util.ts"),
        files("b/index.ts", "a/index.ts"),
        files("a/index.ts", "b/index.ts"),
    ]);
    assert_eq!(
        list.group_by_from(),
        vec![
            ("a/index.ts".to_string(), vec!["a/util.ts".to_string(), "b/index.ts".to_string()]),
            ("b/index.ts".to_string(), vec!["a/index.ts".to_string()]),
        ]
    );
}

#[test]
fn a_large_set_is_put_together_quickly() {
    let mut edges = Vec::new();
    for round in 0..3 {
        for i in 0..20_000u32 {
            let _ = round;
            edges.push(Dependency::create(
                format!("module-{}", i % 5_000),
                format!("module-{}", (i * 7 + 1) % 5_000),
            ));
        }
    }
    let list = DependencyList::from_edges(edges);
    assert_eq!(list.len(), 5_000);
    let grouped = list.group_by_from();
    assert_eq!(grouped.len(), 5_000);
    assert!(grouped.iter().all(|(_, to)| to.len() == 1));
}
