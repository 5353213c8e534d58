use builder::config::add_config_to_map;
use builder::config::bool_string;
use builder::config::can_load;
use builder::config::is_all_text;
use builder::config::load;
use builder::config::ConfigValue;
use builder::config::Defaults;
use builder::config::ModuleDecl;
use builder::context::Context;
use builder::error::Error;
use builder::names::StringMap;
use std::path::PathBuf;

fn text(s: &str) -> ConfigValue {
    ConfigValue::Text(s.to_string())
}

fn decl(name: &str, deps: &[&str]) -> ModuleDecl {
    ModuleDecl {
        name: name.to_string(),
        path: None,
        module_type: None,
        deps: if deps.is_empty() { None } else { Some(deps.iter().map(|d| d.to_string()).collect()) },
        config: None,
    }
}

fn no_defaults() -> Defaults {
    Defaults { module_type: None, config: None }
}

#[test]
fn values_have_their_texts() {
    assert_eq!(text("a").to_text(), "a");
    assert_eq!(ConfigValue::Bool(true).to_text(), "true");
    assert_eq!(ConfigValue::Bool(false).to_text(), "false");
    assert_eq!(ConfigValue::Number("1.5".to_string()).to_text(), "1.5");
    assert_eq!(bool_string(true), "true");
}

#[test]
fn sequences_are_joined_with_commas() {
    let seq = ConfigValue::Sequence(vec![
        text("a"),
        ConfigValue::Bool(false),
        ConfigValue::Mapping,
        ConfigValue::Null,
        ConfigValue::Number("7".to_string()),
        ConfigValue::Sequence(vec![text("x")]),
    ]);
    assert_eq!(seq.to_text(), "a,false,unexpected_map,null,7,unexpected_sequence");
    assert_eq!(ConfigValue::Sequence(vec![]).to_text(), "");
    assert_eq!(ConfigValue::Sequence(vec![text("only")]).to_text(), "only");
}

#[test]
fn null_and_mapping_have_no_text() {
    assert!(!ConfigValue::Null.is_text());
    assert!(!ConfigValue::Mapping.is_text());
    assert!(text("a").is_text());
    assert!(ConfigValue::Sequence(vec![ConfigValue::Null]).is_text());
    assert!(is_all_text(&vec![("k".to_string(), text("v"))]));
    assert!(!is_all_text(&vec![("k".to_string(), text("v")), ("n".to_string(), ConfigValue::Null)]));
}

#[test]
fn last_writer_wins() {
    let mut config = StringMap::new();
    add_config_to_map(&mut config, &vec![("a".to_string(), text("1")), ("b".to_string(), text("2"))]);
    add_config_to_map(&mut config, &vec![("a".to_string(), ConfigValue::Bool(true))]);
    assert_eq!(config.get("a"), Some(&"true".to_string()));
    assert_eq!(config.get("b"), Some(&"2".to_string()));
    assert_eq!(config.len(), 2);
}

#[test]
fn module_is_assembled_from_declaration_and_defaults() {
    let defaults = Defaults {
        module_type: Some("custom".to_string()),
        config: Some(vec![("shared".to_string(), text("d")), ("own".to_string(), text("d"))]),
    };
    let declared = ModuleDecl {
        name: "core".to_string(),
        path: Some("libs/core".to_string()),
        module_type: None,
        deps: None,
        config: Some(vec![("own".to_string(), text("m"))]),
    };
    let m = declared.to_module(&defaults);
    assert_eq!(m.name(), "core");
    assert_eq!(m.module_dir(), &PathBuf::from("libs/core"));
    assert_eq!(m.build_dir(), &PathBuf::from("libs/core").join("build"));
    assert_eq!(m.types().as_vec(), &vec!["custom".to_string()]);
    assert_eq!(m.config().get("shared"), Some(&"d".to_string()));
    assert_eq!(m.config().get("own"), Some(&"m".to_string()));
}

#[test]
fn module_type_and_directory_have_defaults() {
    let m = decl("core", &[]).to_module(&no_defaults());
    assert_eq!(m.module_dir(), &PathBuf::from("core"));
    assert_eq!(m.types().as_vec(), &vec!["conan".to_string()]);
    let mut own = decl("core", &[]);
    own.module_type = Some("mine".to_string());
    let defaults = Defaults { module_type: Some("custom".to_string()), config: None };
    assert_eq!(own.to_module(&defaults).types().as_vec(), &vec!["mine".to_string()]);
}

#[test]
fn load_registers_modules_and_dependencies() {
    let mut ctx = Context::new();
    let decls = vec![decl("m1", &["m0"]), decl("m0", &[])];
    assert!(can_load(&no_defaults(), &decls));
    assert_eq!(load(&mut ctx, &no_defaults(), &decls), Ok(()));
    assert_eq!(ctx.get_module_deps("m1").unwrap().as_vec(), &vec!["m0".to_string()]);
    assert!(ctx.get_module_deps("m0").unwrap().is_empty());
    let modules = ctx.modules_mut();
    assert_eq!(modules.key_at(0), "m1");
    assert_eq!(modules.key_at(1), "m0");
}

#[test]
fn load_reports_the_first_unknown_dependency() {
    let mut ctx = Context::new();
    let decls = vec![decl("a", &["b", "ghost", "other"]), decl("b", &["phantom"])];
    assert_eq!(
        load(&mut ctx, &no_defaults(), &decls),
        Err(Error::ItemNotFound { name: "ghost".to_string() })
    );
    assert_eq!(ctx.get_module_deps("a").unwrap().as_vec(), &vec!["b".to_string()]);
    assert!(ctx.get_module_deps("b").unwrap().is_empty());
}

#[test]
fn load_of_a_name_declared_twice_keeps_the_last() {
    let mut ctx = Context::new();
    let mut first = decl("m", &[]);
    first.path = Some("one".to_string());
    let mut second = decl("m", &[]);
    second.path = Some("two".to_string());
    assert_eq!(load(&mut ctx, &no_defaults(), &vec![first, second]), Ok(()));
    let modules = ctx.modules_mut();
    assert_eq!(modules.len(), 1);
    assert_eq!(modules.get("m").unwrap().module_dir(), &PathBuf::from("two"));
}

#[test]
fn can_load_refuses_values_without_text() {
    let mut bad = decl("m", &[]);
    bad.config = Some(vec![("k".to_string(), ConfigValue::Mapping)]);
    assert!(!can_load(&no_defaults(), &vec![decl("ok", &[]), bad]));
    let defaults = Defaults { module_type: None, config: Some(vec![("k".to_string(), ConfigValue::Null)]) };
    assert!(!can_load(&defaults, &vec![]));
}
