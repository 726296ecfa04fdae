use belmarsh::file_parent_path::FileParentPath;
use belmarsh::file_path::{
    is_source_path, FilePath, FilePathContentsError, FilePathFromEntryError,
    FilePathFromPathBufError,
};
use belmarsh::import_path::{ImportPath, ImportPathFromImportStringError};
use belmarsh::module::{component_to_string, Module, ModuleFromComponentError};
use belmarsh::render::Render;
use belmarsh::repository::child::{
    RepositoryChildPath, RepositoryChildPathFromFilePathError,
    RepositoryChildPathFromImportPathError, RepositoryChildPathFromPathError,
    RepositoryChildPathModuleError,
};
use belmarsh::repository::path::{RepositoryPath, RepositoryPathFromStringError};
use belmarsh::segment::{PathSegment, SegmentPath};

fn path(text: &str) -> SegmentPath {
    let mut segments = Vec::new();
    if text.starts_with('/') {
        segments.push(PathSegment::RootDir);
    }
    for part in text.split('/') {
        match part {
            "" => {}
            "." => segments.push(PathSegment::CurDir),
            ".." => segments.push(PathSegment::ParentDir),
            name => segments.push(PathSegment::Normal(name.to_string())),
        }
    }
    SegmentPath::from_segments(segments)
}

fn root() -> RepositoryPath {
    RepositoryPath::new(path("/work/repo"))
}

fn file(text: &str) -> FilePath {
    FilePath::try_from(path(text), true, Ok(path(text))).unwrap()
}

#[test]
fn segments_render_as_a_path() {
    assert_eq!(path("/work/repo/a/index.ts").render(), "/work/repo/a/index.ts");
    assert_eq!(path("a/b.ts").render(), "a/b.ts");
    assert_eq!(path("./a/../b").render(), "./a/../b");
    assert_eq!(path("/").render(), "/");
    assert_eq!(path("").render(), "");
    let prefixed = SegmentPath::from_segments(vec![
        PathSegment::Prefix("C:".to_string()),
        PathSegment::Normal("a".to_string()),
    ]);
    assert_eq!(prefixed.render(), "C:/a");
}

#[test]
fn a_root_segment_starts_the_path_afresh() {
    let p = SegmentPath::from_segments(vec![
        PathSegment::Normal("a".to_string()),
        PathSegment::RootDir,
        PathSegment::Normal("b".to_string()),
    ]);
    assert_eq!(p.render(), "/b");
}

#[test]
fn starts_with_compares_whole_segments() {
    assert!(path("/work/repo/a").starts_with(&path("/work/repo")));
    assert!(path("/work/repo").starts_with(&path("/work/repo")));
    assert!(!path("/work/repository/a").starts_with(&path("/work/repo")));
    assert!(!path("/work").starts_with(&path("/work/repo")));
    assert!(path("a/b").starts_with(&path("")));
}

#[test]
fn join_appends_the_segments() {
    assert_eq!(path("/work").join(&path("repo/a.ts")).render(), "/work/repo/a.ts");
    assert_eq!(path("/work").join(&path("")).len(), 2);
}

#[test]
fn classifying_places_a_path_under_the_root() {
    let child = RepositoryChildPath::from_path(&path("/work/repo/users/api/client.ts"), &root())
        .unwrap();
    assert_eq!(child.render(), "users/api/client.ts");
    assert!(!child.is_barrel());
    assert_eq!(child.as_path().len(), 3);
}

#[test]
fn classifying_refuses_a_path_outside_the_root() {
    let e = RepositoryChildPath::from_path(&path("/work/other/a.ts"), &root()).unwrap_err();
    let RepositoryChildPathFromPathError::ImportOutsideRoot(p) = e;
    assert_eq!(p, "/work/other/a.ts");

    let e = RepositoryChildPath::from_import_path(
        &ImportPath::new(path("/usr/lib/node_modules/x/index.ts")),
        &root(),
    )
    .unwrap_err();
    let RepositoryChildPathFromImportPathError::Path(
        RepositoryChildPathFromPathError::ImportOutsideRoot(p),
    ) = e;
    assert_eq!(p, "/usr/lib/node_modules/x/index.ts");

    let e = RepositoryChildPath::from_file_path(&file("/elsewhere/a.ts"), &root()).unwrap_err();
    let RepositoryChildPathFromFilePathError::Path(
        RepositoryChildPathFromPathError::ImportOutsideRoot(p),
    ) = e;
    assert_eq!(p, "/elsewhere/a.ts");
}

#[test]
fn classifying_then_resolving_gives_the_path_back() {
    for text in ["/work/repo/a/index.ts", "/work/repo/a/b/c/d.ts", "/work/repo/x.ts", "/work/repo"] {
        let absolute = path(text);
        let child = RepositoryChildPath::from_path(&absolute, &root()).unwrap();
        let back = root().resolve(child.as_path());
        assert_eq!(back.render(), text);
        assert_eq!(back.len(), absolute.len());
        assert!(back.starts_with(&absolute) && absolute.starts_with(&back));
    }
}

#[test]
fn barrel_files_are_named_index_or_testing() {
    let cases = [
        ("/work/repo/a/index.ts", true),
        ("/work/repo/a/testing.ts", true),
        ("/work/repo/a/b/index.ts", true),
        ("/work/repo/index.ts", true),
        ("/work/repo/a/index.tsx", false),
        ("/work/repo/a/Index.ts", false),
        ("/work/repo/a/index.d.ts", false),
        ("/work/repo/a/my-index.ts", false),
        ("/work/repo/a/testing.spec.ts", false),
        ("/work/repo/a/index.ts/util.ts", false),
        ("/work/repo/a/util.ts", false),
        ("/work/repo", false),
    ];
    for (text, barrel) in cases {
        let child = RepositoryChildPath::from_path(&path(text), &root()).unwrap();
        assert_eq!(child.is_barrel(), barrel, "{text}");
    }
}

#[test]
fn the_module_is_the_first_segment() {
    let child = RepositoryChildPath::from_path(&path("/work/repo/users/api/client.ts"), &root())
        .unwrap();
    let module = child.module().unwrap();
    assert_eq!(module.as_str(), "users");
    assert_eq!(module.render(), "users");
    assert!(module == Module::from("users".to_string()));
    let top = RepositoryChildPath::from_path(&path("/work/repo/main.ts"), &root()).unwrap();
    assert_eq!(top.module().unwrap().as_str(), "main.ts");
}

#[test]
fn a_path_without_segments_has_no_module() {
    let child = RepositoryChildPath::from_path(&path("/work/repo"), &root()).unwrap();
    match child.module() {
        Err(RepositoryChildPathModuleError::CouldNotGetModule(p)) => assert_eq!(p, ""),
        other => panic!("unexpected {other:?}"),
    }
}

#[test]
fn a_first_segment_that_is_no_name_has_no_module() {
    let child = RepositoryChildPath::from_path(&path("../x/a.ts"), &RepositoryPath::new(path("")))
        .unwrap();
    match child.module() {
        Err(RepositoryChildPathModuleError::ModuleConversionError(
            ModuleFromComponentError::InvalidComponent(t),
        )) => assert_eq!(t, ".."),
        other => panic!("unexpected {other:?}"),
    }
}

#[test]
fn only_a_plain_name_names_a_module() {
    assert_eq!(Module::try_from(PathSegment::Normal("core".to_string())).unwrap().as_str(), "core");
    let refused = [
        (PathSegment::RootDir, "/"),
        (PathSegment::CurDir, "."),
        (PathSegment::ParentDir, ".."),
        (PathSegment::Prefix("C:".to_string()), "C:"),
    ];
    for (segment, text) in refused {
        assert_eq!(component_to_string(&segment), text);
        match Module::try_from(segment) {
            Err(ModuleFromComponentError::InvalidComponent(t)) => assert_eq!(t, text),
            Ok(m) => panic!("unexpected module {m:?}"),
        }
    }
    assert_eq!(component_to_string(&PathSegment::Normal("x".to_string())), "x");
}

#[test]
fn source_files_end_in_the_source_extension() {
    let cases = [
        ("/r/a/b.ts", true),
        ("/r/a/b.d.ts", true),
        ("/r/a/..ts", true),
        ("/r/a/b.tsx", false),
        ("/r/a/b.js", false),
        ("/r/a/.ts", false),
        ("/r/a/ts", false),
        ("/r/a/b.ts.", false),
        ("/r/a/b.TS", false),
        ("/r/a/b", false),
        ("/r/a/..", false),
        ("/", false),
        ("", false),
    ];
    for (text, expected) in cases {
        assert_eq!(is_source_path(&path(text)), expected, "{text:?}");
        let std_says = std::path::Path::new(text).extension().map_or(false, |e| e == "ts");
        assert_eq!(expected, std_says, "{text:?}");
    }
}

#[test]
fn a_file_path_is_made_of_a_regular_source_file() {
    let f = FilePath::try_from(path("a/../b/x.ts"), true, Ok(path("/r/b/x.ts"))).unwrap();
    assert_eq!(f.as_path().render(), "/r/b/x.ts");
}

#[test]
fn a_path_that_is_no_file_is_refused() {
    match FilePath::try_from(path("/r/a/x.ts"), false, Ok(path("/r/a/x.ts"))) {
        Err(FilePathFromPathBufError::NotAValidFile(p)) => assert_eq!(p, "/r/a/x.ts"),
        other => panic!("unexpected {other:?}"),
    }
}

#[test]
fn a_file_without_the_source_extension_is_refused() {
    match FilePath::try_from(path("/r/a/x.js"), true, Ok(path("/r/a/x.js"))) {
        Err(FilePathFromPathBufError::NotAValidFile(p)) => assert_eq!(p, "/r/a/x.js"),
        other => panic!("unexpected {other:?}"),
    }
    match FilePath::try_from_entry(path("/r/a"), true, Err("gone".to_string())) {
        Err(FilePathFromEntryError::IncorrectPath(FilePathFromPathBufError::NotAValidFile(p))) => {
            assert_eq!(p, "/r/a")
        }
        other => panic!("unexpected {other:?}"),
    }
}

#[test]
fn a_file_that_cannot_be_made_canonical_is_refused() {
    match FilePath::try_from(path("/r/a/x.ts"), true, Err("permission denied".to_string())) {
        Err(FilePathFromPathBufError::Io(cause, p)) => {
            assert_eq!(cause, "permission denied");
            assert_eq!(p, "/r/a/x.ts");
        }
        other => panic!("unexpected {other:?}"),
    }
    match FilePath::try_from_entry(path("/r/a/x.ts"), true, Err("loop".to_string())) {
        Err(FilePathFromEntryError::IncorrectPath(FilePathFromPathBufError::Io(cause, p))) => {
            assert_eq!(cause, "loop");
            assert_eq!(p, "/r/a/x.ts");
        }
        other => panic!("unexpected {other:?}"),
    }
    assert!(FilePath::try_from_entry(path("/r/a/x.ts"), true, Ok(path("/r/a/x.ts"))).is_ok());
}

#[test]
fn the_contents_error_names_the_file() {
    let FilePathContentsError::Io(cause, p) = file("/r/a/x.ts").contents_error("denied".to_string());
    assert_eq!(cause, "denied");
    assert_eq!(p, "/r/a/x.ts");
}

#[test]
fn the_parent_is_the_path_without_its_last_segment() {
    assert_eq!(FileParentPath::from_file_path(&file("/r/a/x.ts")).as_path().render(), "/r/a");
    assert_eq!(FileParentPath::from_file_path(&file("x.ts")).as_path().render(), "");
    let odd = FilePath::try_from(path("/r/x.ts"), true, Ok(path("/"))).unwrap();
    assert_eq!(FileParentPath::from_file_path(&odd).as_path().render(), "");
    let empty = FilePath::try_from(path("/r/x.ts"), true, Ok(path(""))).unwrap();
    assert_eq!(FileParentPath::from_file_path(&empty).as_path().len(), 0);
}

#[test]
fn the_root_is_made_of_a_canonical_path() {
    let r = RepositoryPath::try_from("./repo".to_string(), Ok(path("/work/repo"))).unwrap();
    assert_eq!(r.as_path().render(), "/work/repo");
    assert_eq!(r.clone().into_path().render(), "/work/repo");
    match RepositoryPath::try_from("./nowhere".to_string(), Err("not found".to_string())) {
        Err(RepositoryPathFromStringError::IoError(cause, value)) => {
            assert_eq!(cause, "not found");
            assert_eq!(value, "./nowhere");
        }
        other => panic!("unexpected {other:?}"),
    }
}

#[test]
fn candidates_are_tried_in_order() {
    assert_eq!(
        ImportPath::candidates("./util"),
        vec!["./util.ts", "./util.d.ts", "./util/index.ts", "./util"]
    );
    assert_eq!(ImportPath::candidates("../b/index.ts"), vec!["../b/index.ts"]);
    assert_eq!(ImportPath::candidates("./a.tsx"), vec!["./a.tsx.ts", "./a.tsx.d.ts", "./a.tsx/index.ts", "./a.tsx"]);
}

#[test]
fn the_first_candidate_that_names_a_file_is_the_target() {
    let cwd = FileParentPath::from_file_path(&file("/work/repo/a/x.ts"));
    let resolved = vec![None, Some(path("/work/repo/a/util.d.ts")), Some(path("/work/repo/a/util/index.ts")), None];
    let target = ImportPath::from_import_string("./util", &cwd, &resolved).unwrap();
    assert_eq!(target.as_path().render(), "/work/repo/a/util.d.ts");

    let resolved = vec![None, None, None, Some(path("/work/repo/a/util"))];
    let target = ImportPath::from_import_string("./util", &cwd, &resolved).unwrap();
    assert_eq!(target.into_path().render(), "/work/repo/a/util");
}

#[test]
fn a_literal_that_names_a_source_file_has_one_candidate() {
    let cwd = FileParentPath::from_file_path(&file("/work/repo/a/x.ts"));
    let resolved = vec![None, Some(path("/work/repo/a/y.ts.d.ts"))];
    match ImportPath::from_import_string("./y.ts", &cwd, &resolved) {
        Err(ImportPathFromImportStringError::CannotFindFile(p)) => {
            assert_eq!(p, "/work/repo/a/./y.ts")
        }
        other => panic!("unexpected {other:?}"),
    }
    let resolved = vec![Some(path("/work/repo/a/y.ts"))];
    assert!(ImportPath::from_import_string("./y.ts", &cwd, &resolved).is_ok());
}

#[test]
fn an_import_that_names_no_file_is_refused() {
    let cwd = FileParentPath::from_file_path(&file("/work/repo/a/x.ts"));
    match ImportPath::from_import_string("../b/missing", &cwd, &vec![None, None, None, None]) {
        Err(ImportPathFromImportStringError::CannotFindFile(p)) => {
            assert_eq!(p, "/work/repo/a/../b/missing")
        }
        other => panic!("unexpected {other:?}"),
    }
    match ImportPath::from_import_string("./x", &cwd, &vec![]) {
        Err(ImportPathFromImportStringError::CannotFindFile(p)) => assert_eq!(p, "/work/repo/a/./x"),
        other => panic!("unexpected {other:?}"),
    }
}

#[test]
fn relative_paths_are_equal_where_they_are_printed_alike() {
    let a = RepositoryChildPath::from_path(&path("/work/repo/a/index.ts"), &root()).unwrap();
    let b = RepositoryChildPath::from_path(&path("/work/repo/./a/index.ts"), &RepositoryPath::new(path("/work/repo/.")))
        .unwrap();
    let c = RepositoryChildPath::from_path(&path("/work/repo/a/util.ts"), &root()).unwrap();
    assert!(a == b);
    assert!(a == a.clone());
    assert!(a != c);
    let joined = SegmentPath::from_segments(vec![PathSegment::Normal("a/index.ts".to_string())]);
    let d = RepositoryChildPath::from_path(&joined, &RepositoryPath::new(path(""))).unwrap();
    assert!(a == d);
    assert!(!d.is_barrel());
}

fn segments_of(p: &std::path::Path) -> SegmentPath {
    SegmentPath::from_segments(
        p.components()
            .map(|c| match c {
                std::path::Component::Prefix(x) => {
                    PathSegment::Prefix(x.as_os_str().to_string_lossy().into_owned())
                }
                std::path::Component::RootDir => PathSegment::RootDir,
                std::path::Component::CurDir => PathSegment::CurDir,
                std::path::Component::ParentDir => PathSegment::ParentDir,
                std::path::Component::Normal(n) => {
                    PathSegment::Normal(n.to_string_lossy().into_owned())
                }
            })
            .collect(),
    )
}

#[test]
fn rendering_agrees_with_the_paths_of_the_platform() {
    for text in ["/work/repo/a/index.ts", "a/b.ts", "./a/b", "../a/../b", "/", "", "a", "/a//b/./c/"] {
        let p = std::path::Path::new(text);
        let rebuilt: std::path::PathBuf = p.components().collect();
        assert_eq!(segments_of(p).render(), rebuilt.display().to_string(), "{text:?}");
    }
}

#[test]
fn classifying_agrees_with_the_paths_of_the_platform() {
    let cases = [
        ("/work/repo/a/index.ts", "/work/repo"),
        ("/work/repo", "/work/repo"),
        ("/work/repository/a.ts", "/work/repo"),
        ("/work/repo/a.ts", "/work/repo/a.ts/b"),
        ("/other/a.ts", "/work/repo"),
        ("/work/repo/a/b/c.ts", "/"),
        ("/work/repo/a/testing.ts", "/work"),
    ];
    for (text, base) in cases {
        let (p, b) = (std::path::Path::new(text), std::path::Path::new(base));
        let ours = RepositoryChildPath::from_path(&segments_of(p), &RepositoryPath::new(segments_of(b)));
        match p.strip_prefix(b) {
            Ok(rest) => {
                let child = ours.unwrap();
                assert_eq!(child.render(), rest.display().to_string(), "{text} {base}");
                let name = rest.file_name().and_then(|f| f.to_str()).unwrap_or_default();
                assert_eq!(child.is_barrel(), name == "index.ts" || name == "testing.ts");
            }
            Err(_) => assert!(ours.is_err(), "{text} {base}"),
        }
    }
}

#[test]
fn the_parent_agrees_with_the_paths_of_the_platform() {
    for text in ["/work/repo/a/index.ts", "/a", "/", "a", "a/b", "a/..", "./a"] {
        let p = std::path::Path::new(text);
        let f = FilePath::try_from(path("/x.ts"), true, Ok(segments_of(p))).unwrap();
        let expected = p.parent().unwrap_or(std::path::Path::new(""));
        assert_eq!(
            FileParentPath::from_file_path(&f).as_path().render(),
            expected.display().to_string(),
            "{text:?}"
        );
    }
}

#[test]
fn an_unresolved_import_is_printed_as_the_platform_joins_paths() {
    for (dir, literal) in [
        ("/work/repo/a", "./x"),
        ("/work/repo/a", "../b/y.ts"),
        ("/", "./x"),
        ("/work", "/abs/x"),
        ("/work", "."),
    ] {
        let file = std::path::Path::new(dir).join("f.ts");
        let f = FilePath::try_from(path("/x.ts"), true, Ok(segments_of(&file))).unwrap();
        let cwd = FileParentPath::from_file_path(&f);
        let expected = std::path::Path::new(dir).join(literal).display().to_string();
        match ImportPath::from_import_string(literal, &cwd, &vec![]) {
            Err(ImportPathFromImportStringError::CannotFindFile(p)) => {
                assert_eq!(p, expected, "{dir} {literal}")
            }
            other => panic!("unexpected {other:?}"),
        }
    }
}
