use builder::context::Context;
use builder::error::BuildError;
use builder::error::Error;
use builder::module::Module;
use builder::names::StringMap;
use builder::names::StringSet;
use builder::task::Task;
use std::collections::HashSet;
use std::path::PathBuf;

struct TestTask {}

impl TestTask {
    fn new() -> TestTask {
        TestTask {}
    }
}

impl Task for TestTask {
    fn needs_execution(&self) -> bool {
        true
    }
    fn execute(&self) -> Result<(), Error> {
        Ok(())
    }
}

fn as_set(deps: &StringSet) -> HashSet<String> {
    deps.as_vec().iter().cloned().collect()
}

fn module(name: &str) -> Module {
    Module::new(name, PathBuf::new(), PathBuf::new(), StringSet::new(), StringMap::new())
}

#[test]
fn task_dependency() {
    let mut ctx = Context::new();
    ctx.add_task("task0", Box::new(TestTask::new()));
    ctx.add_task("task1", Box::new(TestTask::new()));
    ctx.task_mut("task1").unwrap().depends_on("task0").unwrap();

    let mut expected = HashSet::<String>::new();
    expected.insert("task0".to_string());

    assert_eq!(&as_set(ctx.get_task_deps("task1").unwrap()), &expected);
}

#[test]
fn module_dependency() {
    let mut ctx = Context::new();
    ctx.add_module(
        "m0",
        Module::new(
            &"m0".to_string(),
            PathBuf::new(),
            PathBuf::new(),
            StringSet::new(),
            StringMap::new(),
        ),
    );
    ctx.add_module(
        "m1",
        Module::new(
            &"m0".to_string(),
            PathBuf::new(),
            PathBuf::new(),
            StringSet::new(),
            StringMap::new(),
        ),
    );
    ctx.module("m1").unwrap().depends_on("m0").unwrap();

    let mut expected = HashSet::<String>::new();
    expected.insert("m0".to_string());

    assert_eq!(&as_set(ctx.get_module_deps("m1").unwrap()), &expected);
}

#[test]
fn module_without_dependencies_has_none() {
    let mut ctx = Context::new();
    ctx.add_module("m0", module("m0"));
    ctx.add_module("m1", module("m1"));
    ctx.module("m1").unwrap().depends_on("m0").unwrap();
    assert!(ctx.get_module_deps("m0").unwrap().is_empty());
    assert_eq!(ctx.get_module_deps("m1").unwrap().len(), 1);
}

#[test]
fn modules_and_tasks_are_separate_namespaces() {
    let mut ctx = Context::new();
    ctx.add_module("same", module("same"));
    assert!(ctx.get_task("same").is_err());
    assert!(ctx.get_task_deps("same").is_err());
    ctx.add_task("same", Box::new(TestTask::new()));
    ctx.add_task("other", Box::new(TestTask::new()));
    ctx.task_mut("same").unwrap().depends_on("other").unwrap();
    assert!(ctx.get_module_deps("same").unwrap().is_empty());
    assert!(ctx.get_task_deps("same").unwrap().contains("other"));
}

#[test]
fn get_task_of_unknown_name_is_no_such_task() {
    let ctx = Context::new();
    match ctx.get_task("ghost") {
        Err(e) => assert_eq!(e, Error::Build(BuildError::NoSuchTask("ghost".to_string()))),
        Ok(_) => panic!("a task was found in an empty context"),
    }
}

#[test]
fn get_task_finds_registered_task() {
    let mut ctx = Context::new();
    ctx.add_task("t", Box::new(TestTask::new()));
    assert!(ctx.get_task("t").unwrap().needs_execution());
}

#[test]
fn deps_of_unknown_name_is_item_not_found() {
    let ctx = Context::new();
    assert_eq!(
        ctx.get_task_deps("ghost").err(),
        Some(Error::ItemNotFound { name: "ghost".to_string() })
    );
    assert_eq!(
        ctx.get_module_deps("ghost").err(),
        Some(Error::ItemNotFound { name: "ghost".to_string() })
    );
}

#[test]
fn handle_of_unknown_module_is_no_such_module() {
    let mut ctx = Context::new();
    match ctx.module("ghost") {
        Err(e) => assert_eq!(e, Error::Build(BuildError::NoSuchModule("ghost".to_string()))),
        Ok(_) => panic!("a handle was made for a module that does not exist"),
    };
}

#[test]
fn handle_of_unknown_task_is_no_such_task() {
    let mut ctx = Context::new();
    match ctx.task_mut("ghost") {
        Err(e) => assert_eq!(e, Error::Build(BuildError::NoSuchTask("ghost".to_string()))),
        Ok(_) => panic!("a handle was made for a task that does not exist"),
    };
}

#[test]
fn depends_on_unknown_name_fails_and_changes_nothing() {
    let mut ctx = Context::new();
    ctx.add_task("a", Box::new(TestTask::new()));
    let r = ctx.task_mut("a").unwrap().depends_on("ghost");
    assert_eq!(r, Err(Error::ItemNotFound { name: "ghost".to_string() }));
    assert!(ctx.get_task_deps("a").unwrap().is_empty());
}

#[test]
fn readding_a_task_clears_its_dependencies() {
    let mut ctx = Context::new();
    ctx.add_task("a", Box::new(TestTask::new()));
    ctx.add_task("b", Box::new(TestTask::new()));
    ctx.task_mut("a").unwrap().depends_on("b").unwrap();
    assert_eq!(ctx.get_task_deps("a").unwrap().len(), 1);
    ctx.add_task("a", Box::new(TestTask::new()));
    assert!(ctx.get_task_deps("a").unwrap().is_empty());
}

#[test]
fn readding_a_task_keeps_edges_that_point_to_it() {
    let mut ctx = Context::new();
    ctx.add_task("a", Box::new(TestTask::new()));
    ctx.add_task("b", Box::new(TestTask::new()));
    ctx.task_mut("a").unwrap().depends_on("b").unwrap();
    ctx.add_task("b", Box::new(TestTask::new()));
    assert!(ctx.get_task_deps("a").unwrap().contains("b"));
}

#[test]
fn modules_mut_lists_modules_in_order() {
    let mut ctx = Context::new();
    ctx.add_module("m0", module("m0"));
    ctx.add_module("m1", module("m1"));
    ctx.add_module("m0", module("again"));
    let modules = ctx.modules_mut();
    assert_eq!(modules.len(), 2);
    assert_eq!(modules.key_at(0), "m0");
    assert_eq!(modules.key_at(1), "m1");
    assert_eq!(modules.value_at(0).name(), "again");
    assert_eq!(modules.get("m1").unwrap().name(), "m1");
}

#[test]
fn module_getters_return_what_was_given() {
    let mut types = StringSet::new();
    types.insert("conan".to_string());
    let mut config = StringMap::new();
    config.insert("k".to_string(), "v".to_string());
    config.insert("k".to_string(), "w".to_string());
    let m = Module::new("m", PathBuf::from("dir"), PathBuf::from("dir/build"), types, config);
    assert_eq!(m.name(), "m");
    assert_eq!(m.module_dir(), &PathBuf::from("dir"));
    assert_eq!(m.build_dir(), &PathBuf::from("dir/build"));
    assert!(m.types().contains("conan"));
    assert_eq!(m.config().get("k"), Some(&"w".to_string()));
    assert_eq!(m.config().len(), 1);
}
