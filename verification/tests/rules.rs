use builder::conan::build_config;
use builder::conan::build_task_name;
use builder::conan::clean_task_name;
use builder::conan::conan_arguments;
use builder::conan::conan_steps;
use builder::conan::get_artifact_type;
use builder::conan::get_required_config;
use builder::conan::has_value;
use builder::conan::needs_rebuild;
use builder::conan::render;
use builder::conan::ConanConfig;
use builder::conan::ConanPlugin;
use builder::conan::ConanStep;
use builder::context::Context;
use builder::error::BuildError;
use builder::error::Error;
use builder::module::Module;
use builder::names::StringMap;
use builder::names::StringSet;
use builder::task::Task;
use std::path::PathBuf;

struct Idle;

impl Task for Idle {
    fn needs_execution(&self) -> bool {
        false
    }
    fn execute(&self) -> Result<(), Error> {
        Ok(())
    }
}

fn config(pairs: &[(&str, &str)]) -> StringMap<String> {
    let mut c = StringMap::new();
    for (k, v) in pairs {
        c.insert(k.to_string(), v.to_string());
    }
    c
}

fn module(name: &str, types: &[&str], pairs: &[(&str, &str)]) -> Module {
    let mut tags = StringSet::new();
    for t in types {
        tags.insert(t.to_string());
    }
    Module::new(name, PathBuf::from(name), PathBuf::from(name).join("build"), tags, config(pairs))
}

fn config_error(text: &str) -> Result<(), BuildError> {
    Err(BuildError::ConfigError(text.to_string()))
}

#[test]
fn conanfile_alone_is_valid() {
    let plugin = ConanPlugin::new();
    assert_eq!(plugin.validate_config(&config(&[("conan.conanfile", "conanfile.py")])), Ok(()));
}

#[test]
fn binary_with_version_is_valid() {
    let plugin = ConanPlugin::new();
    let c = config(&[("conan.version", "1.0"), ("conan.artifact_type", "bin")]);
    assert_eq!(plugin.validate_config(&c), Ok(()));
}

#[test]
fn described_library_is_valid() {
    let plugin = ConanPlugin::new();
    let c = config(&[
        ("conan.version", "1.0"),
        ("conan.artifact_type", "lib"),
        ("conan.user", "u"),
        ("conan.channel", "c"),
        ("conan.artifact_name", "n"),
    ]);
    assert_eq!(plugin.validate_config(&c), Ok(()));
}

#[test]
fn missing_version_is_reported() {
    let plugin = ConanPlugin::new();
    assert_eq!(
        plugin.validate_config(&config(&[("conan.artifact_type", "bin")])),
        config_error("conan.version must be defined.")
    );
    assert_eq!(
        plugin.validate_config(&config(&[])),
        config_error("conan.version must be defined.")
    );
}

#[test]
fn unknown_artifact_type_is_reported() {
    let plugin = ConanPlugin::new();
    let c = config(&[("conan.version", "1.0"), ("conan.artifact_type", "jar")]);
    assert_eq!(plugin.validate_config(&c), config_error("conan.artifact_type is not defined as lib."));
    let c = config(&[("conan.version", "1.0")]);
    assert_eq!(plugin.validate_config(&c), config_error("conan.artifact_type is not defined as lib."));
}

#[test]
fn undescribed_library_is_reported() {
    let plugin = ConanPlugin::new();
    let c = config(&[
        ("conan.version", "1.0"),
        ("conan.artifact_type", "lib"),
        ("conan.user", "u"),
        ("conan.channel", "c"),
    ]);
    assert_eq!(
        plugin.validate_config(&c),
        config_error(
            "conan.artifact_type was defined as \"lib\" but all of conan.user, conan.channel, and conan.artifact_name were not also defined."
        )
    );
}

#[test]
fn has_value_compares_the_bound_text() {
    let c = config(&[("k", "v")]);
    assert!(has_value(&c, "k", "v"));
    assert!(!has_value(&c, "k", "w"));
    assert!(!has_value(&c, "other", "v"));
}

#[test]
fn can_handle_looks_at_the_type_tags() {
    let plugin = ConanPlugin::new();
    assert!(plugin.can_handle(&module("m", &["conan"], &[])));
    assert!(plugin.can_handle(&module("m", &["other", "conan"], &[])));
    assert!(!plugin.can_handle(&module("m", &["other"], &[])));
    assert!(!plugin.can_handle(&module("m", &[], &[])));
}

#[test]
fn required_config_is_found_or_reported() {
    let m = module("m", &["conan"], &[("conan.user", "me")]);
    assert_eq!(get_required_config(&m, "conan.user"), Ok("me".to_string()));
    assert_eq!(
        get_required_config(&m, "conan.channel"),
        Err(BuildError::ConfigError("conan.channel is not defined.".to_string()))
    );
}

#[test]
fn artifact_type_is_named_or_defaults_to_library() {
    let named = module("m", &[], &[("conan.artifact_type", "bin"), ("conan.conanfile", "f")]);
    assert_eq!(get_artifact_type(&named), Ok("bin".to_string()));
    let with_file = module("m", &[], &[("conan.conanfile", "f")]);
    assert_eq!(get_artifact_type(&with_file), Ok("lib".to_string()));
    let bare = module("m", &[], &[]);
    assert_eq!(
        get_artifact_type(&bare),
        Err(BuildError::ConfigError("conan.artifact_type must be defined.".to_string()))
    );
}

#[test]
fn task_names_append_the_kind() {
    assert_eq!(build_task_name("core"), "core:build");
    assert_eq!(clean_task_name("core"), "core:clean");
    assert_eq!(build_task_name(""), ":build");
}

#[test]
fn build_config_fills_in_what_is_missing() {
    let m = module("core", &["conan"], &[("conan.version", "1.0")]);
    let c = build_config(&m, "/work/core");
    assert_eq!(c.get("conan.version"), Some(&"1.0".to_string()));
    assert_eq!(c.get("conan.name"), Some(&"core".to_string()));
    assert_eq!(c.get("conan.module_path"), Some(&"/work/core".to_string()));
    assert_eq!(c.get("conan.requires"), Some(&"".to_string()));
    assert_eq!(c.len(), 4);
    assert_eq!(m.config().len(), 1);
}

#[test]
fn build_config_keeps_what_the_module_says() {
    let m = module(
        "core",
        &["conan"],
        &[("conan.name", "other"), ("conan.module_path", "elsewhere"), ("conan.requires", "zlib")],
    );
    let c = build_config(&m, "/work/core");
    assert_eq!(c.get("conan.name"), Some(&"other".to_string()));
    assert_eq!(c.get("conan.module_path"), Some(&"elsewhere".to_string()));
    assert_eq!(c.get("conan.requires"), Some(&"zlib".to_string()));
    assert_eq!(c.len(), 3);
}

#[test]
fn steps_follow_the_artifact_type() {
    assert_eq!(conan_steps("lib"), Ok(vec![ConanStep::Install, ConanStep::Create]));
    assert_eq!(conan_steps("bin"), Ok(vec![ConanStep::Install, ConanStep::Build]));
    assert_eq!(
        conan_steps("jar"),
        Err(BuildError::IOError("Unknown artifact type jar.".to_string()))
    );
}

#[test]
fn arguments_of_each_call() {
    let create = ConanConfig::Create {
        conanfile: "conanfile.py".to_string(),
        user: "me".to_string(),
        channel: "stable".to_string(),
    };
    assert_eq!(conan_arguments(&create), vec!["create", "conanfile.py", "me/stable"]);
    let install = ConanConfig::Install {
        conanfile: "conanfile.py".to_string(),
        install_folder: "out".to_string(),
    };
    assert_eq!(
        conan_arguments(&install),
        vec!["install", "conanfile.py", "--build=missing", "--install-folder=out"]
    );
    let build = ConanConfig::Build {
        conanfile: "conanfile.py".to_string(),
        source_folder: "s".to_string(),
        install_folder: "i".to_string(),
        build_folder: "b".to_string(),
    };
    assert_eq!(
        conan_arguments(&build),
        vec!["build", "conanfile.py", "--source-folder=s", "--install-folder=i", "--build-folder=b"]
    );
}

#[test]
fn rebuild_is_due_without_a_record_or_after_a_change() {
    assert!(needs_rebuild(None, &vec![]));
    assert!(needs_rebuild(None, &vec![1, 2]));
    assert!(!needs_rebuild(Some(10), &vec![]));
    assert!(!needs_rebuild(Some(10), &vec![1, 9]));
    assert!(needs_rebuild(Some(10), &vec![1, 10]));
    assert!(needs_rebuild(Some(10), &vec![11, 1]));
}

#[test]
fn render_replaces_placeholders() {
    let c = config(&[("name", "core"), ("version", "1.0")]);
    assert_eq!(render("${name}-${version} (${name}) ${other}", &c), "core-1.0 (core) ${other}");
    assert_eq!(render("plain", &c), "plain");
    assert_eq!(render("${name}", &config(&[])), "${name}");
}

#[test]
fn render_goes_key_by_key() {
    let c = config(&[("a", "${b}"), ("b", "x")]);
    assert_eq!(render("${a}", &c), "x");
    let c = config(&[("b", "x"), ("a", "${b}")]);
    assert_eq!(render("${a}", &c), "${b}");
}

#[test]
fn handled_modules_are_the_claimed_ones_in_order() {
    let plugin = ConanPlugin::new();
    let mut ctx = Context::new();
    ctx.add_module("a", module("a", &["conan"], &[("conan.conanfile", "f")]));
    ctx.add_module("b", module("b", &["other"], &[]));
    ctx.add_module("c", module("c", &["conan"], &[("conan.version", "1"), ("conan.artifact_type", "bin")]));
    assert_eq!(plugin.handled_modules(ctx.modules_mut()), Ok(vec!["a".to_string(), "c".to_string()]));
}

#[test]
fn handled_modules_reports_the_first_rejected() {
    let plugin = ConanPlugin::new();
    let mut ctx = Context::new();
    ctx.add_module("a", module("a", &["conan"], &[("conan.conanfile", "f")]));
    ctx.add_module("b", module("b", &["other"], &[]));
    ctx.add_module("c", module("c", &["conan"], &[("conan.version", "1")]));
    ctx.add_module("d", module("d", &["conan"], &[]));
    assert_eq!(
        plugin.handled_modules(ctx.modules_mut()),
        Err(BuildError::ConfigError("conan.artifact_type is not defined as lib.".to_string()))
    );
}

#[test]
fn build_and_clean_tasks_hang_under_their_parents() {
    let plugin = ConanPlugin::new();
    let mut ctx = Context::new();
    ctx.add_task("build", Box::new(Idle));
    ctx.add_task("clean", Box::new(Idle));
    assert_eq!(plugin.add_build_task(&mut ctx, "core", Box::new(Idle)), Ok(()));
    assert_eq!(plugin.add_clean_task(&mut ctx, "core", Box::new(Idle)), Ok(()));
    assert!(ctx.get_task_deps("build").unwrap().contains("core:build"));
    assert_eq!(ctx.get_task_deps("build").unwrap().len(), 1);
    assert!(ctx.get_task_deps("clean").unwrap().contains("core:clean"));
    assert!(ctx.get_task_deps("core:build").unwrap().is_empty());
}

#[test]
fn build_task_without_parent_is_registered_and_reported() {
    let plugin = ConanPlugin::new();
    let mut ctx = Context::new();
    assert_eq!(
        plugin.add_build_task(&mut ctx, "core", Box::new(Idle)),
        Err(Error::Build(BuildError::NoSuchTask("build".to_string())))
    );
    assert!(ctx.get_task("core:build").is_ok());
}

#[test]
fn build_tasks_mirror_module_dependencies() {
    let plugin = ConanPlugin::new();
    let mut ctx = Context::new();
    ctx.add_task("build", Box::new(Idle));
    for name in ["app", "core", "util", "foreign"] {
        ctx.add_module(name, module(name, &["conan"], &[("conan.conanfile", "f")]));
    }
    ctx.module("app").unwrap().depends_on("core").unwrap();
    ctx.module("app").unwrap().depends_on("foreign").unwrap();
    ctx.module("core").unwrap().depends_on("util").unwrap();
    let handled = vec!["app".to_string(), "core".to_string(), "util".to_string()];
    for name in &handled {
        plugin.add_build_task(&mut ctx, name, Box::new(Idle)).unwrap();
    }
    assert_eq!(plugin.link_build_tasks(&mut ctx, &handled), Ok(()));
    let app = ctx.get_task_deps("app:build").unwrap();
    assert_eq!(app.as_vec(), &vec!["core:build".to_string()]);
    let core = ctx.get_task_deps("core:build").unwrap();
    assert_eq!(core.as_vec(), &vec!["util:build".to_string()]);
    assert!(ctx.get_task_deps("util:build").unwrap().is_empty());
}

#[test]
fn linking_fails_where_a_build_task_is_missing() {
    let plugin = ConanPlugin::new();
    let mut ctx = Context::new();
    ctx.add_task("build", Box::new(Idle));
    ctx.add_module("app", module("app", &["conan"], &[]));
    ctx.add_module("core", module("core", &["conan"], &[]));
    ctx.module("app").unwrap().depends_on("core").unwrap();
    plugin.add_build_task(&mut ctx, "app", Box::new(Idle)).unwrap();
    let handled = vec!["app".to_string(), "core".to_string()];
    assert_eq!(
        plugin.link_build_tasks(&mut ctx, &handled),
        Err(Error::ItemNotFound { name: "core:build".to_string() })
    );
    let unknown = vec!["ghost".to_string()];
    assert_eq!(
        plugin.link_build_tasks(&mut ctx, &unknown),
        Err(Error::ItemNotFound { name: "ghost".to_string() })
    );
}
