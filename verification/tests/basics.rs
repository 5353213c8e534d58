use builder::deptree::DepTree;
use builder::error::BuildError;
use builder::error::Error;
use builder::names::clone_strings;
use builder::names::position;
use builder::names::StringMap;
use builder::names::StringSet;
use builder::opt::resume;
use builder::opt::ArgExaminer;
use builder::opt::OptHandler;
use builder::opt::OptParser;

fn strings(items: &[&str]) -> Vec<String> {
    items.iter().map(|s| s.to_string()).collect()
}

#[test]
fn build_error_message_and_text() {
    let e = BuildError::ConfigError("bad".to_string());
    assert_eq!(e.get_message(), "bad");
    assert_eq!(e.to_string(), "ConfigError: bad");
    assert_eq!(BuildError::ExecutionError("x".to_string()).to_string(), "ExecutionError: x");
    assert_eq!(BuildError::IOError("x".to_string()).to_string(), "IOError: x");
    assert_eq!(BuildError::NoSuchModule("m".to_string()).to_string(), "NoSuchModule: m");
    assert_eq!(BuildError::NoSuchTask("t".to_string()).to_string(), "NoSuchTask: t");
    assert_eq!(BuildError::NoSuchTask("t".to_string()).get_message(), "t");
}

#[test]
fn error_text() {
    assert_eq!(
        Error::ItemNotFound { name: "x".to_string() }.to_string(),
        "dependency not found: x"
    );
    assert_eq!(
        Error::DependencyCycle { name: "x".to_string() }.to_string(),
        "dependency cycle through: x"
    );
    assert_eq!(
        Error::Build(BuildError::IOError("disk".to_string())).to_string(),
        "IOError: disk"
    );
}

#[test]
fn position_finds_the_first_occurrence() {
    let v = strings(&["a", "b", "a"]);
    assert_eq!(position(&v, &"a".to_string()), Some(0));
    assert_eq!(position(&v, &"b".to_string()), Some(1));
    assert_eq!(position(&v, &"c".to_string()), None);
    assert_eq!(clone_strings(&v), v);
}

#[test]
fn string_set_keeps_order_and_holds_nothing_twice() {
    let mut s = StringSet::new();
    assert!(s.is_empty());
    assert!(s.insert("b".to_string()));
    assert!(s.insert("a".to_string()));
    assert!(!s.insert("b".to_string()));
    assert_eq!(s.len(), 2);
    assert_eq!(s.as_vec(), &strings(&["b", "a"]));
    assert_eq!(s.get(1), "a");
    assert!(s.contains("a"));
    assert!(!s.contains("c"));
}

#[test]
fn string_map_replaces_in_place() {
    let mut m = StringMap::new();
    m.insert("x".to_string(), 1);
    m.insert("y".to_string(), 2);
    m.insert("x".to_string(), 3);
    assert_eq!(m.len(), 2);
    assert_eq!(m.get("x"), Some(&3));
    assert_eq!(m.get("z"), None);
    assert_eq!(m.index_of("y"), Some(1));
    assert_eq!(m.index_of("z"), None);
    assert_eq!(m.key_at(0), "x");
    assert_eq!(*m.value_at(1), 2);
    assert!(m.contains_key("y"));
    assert!(!m.contains_key("z"));
}

#[test]
fn string_map_duplicate_is_independent() {
    let mut m = StringMap::new();
    m.insert("x".to_string(), "1".to_string());
    let mut copy = m.duplicate();
    copy.insert("x".to_string(), "2".to_string());
    copy.insert("y".to_string(), "3".to_string());
    assert_eq!(m.get("x"), Some(&"1".to_string()));
    assert_eq!(m.len(), 1);
    assert_eq!(copy.get("x"), Some(&"2".to_string()));
}

#[test]
fn registry_insert_get_and_replace() {
    let mut tree: DepTree<u32> = DepTree::new();
    assert!(tree.get_item("a").is_none());
    tree.insert("a", 1);
    tree.insert_box("b", Box::new(2));
    assert_eq!(tree.get_item("a"), Some(&1));
    assert_eq!(tree.get_item("b"), Some(&2));
    tree.insert("a", 3);
    assert_eq!(tree.get_item("a"), Some(&3));
    let items = tree.items_mut();
    assert_eq!(items.len(), 2);
    assert_eq!(items.key_at(0), "a");
    assert_eq!(**items.value_at(1), 2);
}

#[test]
fn set_dependency_needs_both_ends_and_names_the_dependent_first() {
    let mut tree: DepTree<u32> = DepTree::new();
    tree.insert("a", 1);
    assert_eq!(
        tree.set_dependency("x", "y"),
        Err(Error::ItemNotFound { name: "x".to_string() })
    );
    assert_eq!(
        tree.set_dependency("x", "a"),
        Err(Error::ItemNotFound { name: "x".to_string() })
    );
    assert_eq!(
        tree.set_dependency("a", "y"),
        Err(Error::ItemNotFound { name: "y".to_string() })
    );
    assert!(tree.get_deps("a").unwrap().is_empty());
    assert_eq!(tree.get_deps("x").err(), Some(Error::ItemNotFound { name: "x".to_string() }));
}

#[test]
fn set_dependency_twice_is_set_dependency_once() {
    let mut tree: DepTree<u32> = DepTree::new();
    tree.insert("a", 1);
    tree.insert("b", 2);
    tree.insert("c", 3);
    assert_eq!(tree.set_dependency("a", "b"), Ok(()));
    assert_eq!(tree.set_dependency("a", "c"), Ok(()));
    let once = tree.get_deps("a").unwrap().as_vec().clone();
    assert_eq!(tree.set_dependency("a", "b"), Ok(()));
    assert_eq!(tree.get_deps("a").unwrap().as_vec(), &once);
    assert_eq!(once, strings(&["b", "c"]));
}

#[test]
fn self_dependency_is_accepted() {
    let mut tree: DepTree<u32> = DepTree::new();
    tree.insert("a", 1);
    assert_eq!(tree.set_dependency("a", "a"), Ok(()));
    assert!(tree.get_deps("a").unwrap().contains("a"));
}

#[test]
fn reinsert_resets_dependencies() {
    let mut tree: DepTree<u32> = DepTree::new();
    tree.insert("a", 1);
    tree.insert("b", 2);
    tree.set_dependency("a", "b").unwrap();
    tree.insert("a", 9);
    assert!(tree.get_deps("a").unwrap().is_empty());
    assert_eq!(tree.get_item("a"), Some(&9));
}

#[test]
fn examiner_peeks_and_pops() {
    let args = strings(&["prog", "a", "b"]);
    let mut ex = ArgExaminer::new(&args, 1);
    assert_eq!(ex.peek(0), Some("a".to_string()));
    assert_eq!(ex.peek(1), Some("b".to_string()));
    assert_eq!(ex.peek(2), None);
    assert_eq!(ex.peek(usize::MAX), None);
    assert_eq!(ex.pop(), Some("a".to_string()));
    assert_eq!(ex.index(), 2);
    assert_eq!(ex.pop(), Some("b".to_string()));
    assert_eq!(ex.pop(), None);
    assert_eq!(ex.index(), 3);
    let beyond = ArgExaminer::new(&args, 7);
    assert_eq!(beyond.peek(0), None);
}

struct Settings {
    debug: bool,
    config: Option<String>,
}

struct Debug;

impl OptHandler<Settings> for Debug {
    fn handle(&self, config: &mut Settings, _args: &mut ArgExaminer) -> Result<(), String> {
        config.debug = true;
        Ok(())
    }
}

struct Config;

impl OptHandler<Settings> for Config {
    fn handle(&self, config: &mut Settings, args: &mut ArgExaminer) -> Result<(), String> {
        match args.pop() {
            Some(p) => {
                config.config = Some(p);
                Ok(())
            }
            None => Err("\"--config\" expects a path.".to_string()),
        }
    }
}

fn parser() -> OptParser<Settings> {
    let mut parser = OptParser::new("prog");
    parser
        .opt("--debug", "Enable debug logging.", Box::new(Debug))
        .opt("--config", "Path to the config directory.", Box::new(Config));
    parser
}

#[test]
fn parse_collects_positional_arguments() {
    let mut settings = Settings { debug: false, config: None };
    let args = strings(&["prog", "build", "fast"]);
    assert_eq!(parser().parse(&mut settings, &args), Ok(strings(&["build", "fast"])));
    assert!(!settings.debug);
    assert_eq!(parser().parse(&mut settings, &strings(&["prog"])), Ok(vec![]));
    assert_eq!(parser().parse(&mut settings, &vec![]), Ok(vec![]));
}

#[test]
fn parse_hands_options_to_their_handlers() {
    let mut settings = Settings { debug: false, config: None };
    let args = strings(&["prog", "--debug", "build", "--config", "dir", "clean"]);
    assert_eq!(parser().parse(&mut settings, &args), Ok(strings(&["build", "clean"])));
    assert!(settings.debug);
    assert_eq!(settings.config, Some("dir".to_string()));
}

#[test]
fn parse_stops_at_the_first_failing_handler() {
    let mut settings = Settings { debug: false, config: None };
    let args = strings(&["prog", "build", "--config"]);
    assert_eq!(
        parser().parse(&mut settings, &args),
        Err("\"--config\" expects a path.".to_string())
    );
}

#[test]
fn resume_goes_on_behind_the_option_at_least() {
    assert_eq!(resume(3, 6), 6);
    assert_eq!(resume(3, 4), 4);
    assert_eq!(resume(3, 3), 4);
    assert_eq!(resume(3, 0), 4);
}

#[test]
fn usage_text_lists_options_in_order() {
    assert_eq!(
        parser().usage_text(),
        "Usage: prog [options] <args...>\n\nOptions:\n  --debug\n  \tEnable debug logging.\n  --config\n  \tPath to the config directory.\n"
    );
    let empty: OptParser<Settings> = OptParser::new("p");
    assert_eq!(empty.usage_text(), "Usage: p [options] <args...>\n\nOptions:\n");
}
