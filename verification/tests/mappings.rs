use belmarsh::module_mapping::{
    ModuleMapping, ModuleMappingFromParamStringError, ModuleMappings,
    ModuleMappingsFromParamStringsError,
};

fn mapping(text: &str) -> ModuleMapping {
    ModuleMapping::from_param_string(text).unwrap()
}

#[test]
fn a_rule_is_split_at_its_first_colon() {
    let m = mapping("@lib:./packages/lib");
    assert_eq!(m.replace_import_alias("import { a } from '@lib/a';"), "import { a } from './packages/lib/a';");
    let m = mapping("@x:C:/y");
    assert_eq!(m.replace_import_alias("import '@x'"), "import 'C:/y'");
    assert!(mapping("a:b").same(&mapping("a:b")));
    assert!(!mapping("a:b").same(&mapping("a:b:")));
}

#[test]
fn a_text_without_colon_is_no_rule() {
    match ModuleMapping::from_param_string("@lib=./packages/lib") {
        Err(ModuleMappingFromParamStringError::InvalidFormat(s)) => {
            assert_eq!(s, "@lib=./packages/lib")
        }
        Ok(m) => panic!("unexpected {m:?}"),
    }
    assert!(ModuleMapping::from_param_string("").is_err());
    assert!(ModuleMapping::from_param_string(":").is_ok());
}

#[test]
fn only_import_lines_are_rewritten() {
    let m = mapping("@lib:./packages/lib");
    assert_eq!(m.replace_import_alias("   import { a } from '@lib/a';"), "   import { a } from './packages/lib/a';");
    assert_eq!(m.replace_import_alias("const a = require('@lib/a');"), "const a = require('@lib/a');");
    assert_eq!(m.replace_import_alias("// import '@lib'"), "// import '@lib'");
    assert_eq!(m.replace_import_alias("import { a } from './a';"), "import { a } from './a';");
    assert_eq!(m.replace_import_alias("import '@lib' + '@lib'"), "import './packages/lib' + './packages/lib'");
}

#[test]
fn an_empty_alias_matches_between_all_characters() {
    assert_eq!(mapping(":-").replace_import_alias("import"), "-i-m-p-o-r-t-");
    assert_eq!(mapping(":-").replace_import_alias("export"), "export");
}

#[test]
fn rules_are_read_in_order_and_kept_once() {
    let ms = ModuleMappings::from_param_strings(vec![
        "@a:./x".to_string(),
        "@b:./y".to_string(),
        "@a:./x".to_string(),
    ])
    .unwrap();
    assert_eq!(ms.len(), 2);
    assert_eq!(ms.replace_import_aliases("import '@a' and '@b'"), "import './x' and './y'");
    assert_eq!(ModuleMappings::new().replace_import_aliases("import '@a'"), "import '@a'");
    assert_eq!(ms.clone().len(), 2);
}

#[test]
fn rules_apply_one_after_the_other() {
    let ms = ModuleMappings::from_param_strings(vec!["@a:@b".to_string(), "@b:./y".to_string()])
        .unwrap();
    assert_eq!(ms.replace_import_aliases("import '@a'"), "import './y'");
    let twice = ModuleMappings::from_mappings(vec![mapping("a:aa"), mapping("a:aa")]);
    assert_eq!(twice.len(), 1);
    assert_eq!(twice.replace_import_aliases("import a"), "import aa");
}

#[test]
fn the_first_text_that_is_no_rule_is_refused() {
    let r = ModuleMappings::from_param_strings(vec![
        "@a:./x".to_string(),
        "broken".to_string(),
        "worse".to_string(),
    ]);
    match r {
        Err(ModuleMappingsFromParamStringsError::InvalidParam(
            ModuleMappingFromParamStringError::InvalidFormat(s),
        )) => assert_eq!(s, "broken"),
        Ok(m) => panic!("unexpected {m:?}"),
    }
    assert_eq!(ModuleMappings::from_param_strings(vec![]).unwrap().len(), 0);
}
