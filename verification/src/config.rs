//! Turns the declarations of a build file into the modules of a context.

use vstd::prelude::*;
use vstd::string::*;
use std::path::PathBuf;
use crate::context::Context;
use crate::error::Error;
use crate::graph::Graph;
use crate::graph::can_depend;
use crate::graph::law_with_edge_effect;
use crate::graph::with_edge;
use crate::graph::with_node;
use crate::module::Module;
use crate::names::StringMap;
use crate::names::StringSet;
use crate::names::views;

verus! {

/// The type of the modules that name none, where the build file names no
/// default either.
pub const DEFAULT_MODULE_TYPE: &'static str = "conan";

/// The directory below that of a module in which the module is built.
pub const DEFAULT_BUILD_FOLDER: &'static str = "build";

/// A value of a build file.  A number is held as the text that stands for
/// it.
pub enum ConfigValue {
    Null,
    Bool(bool),
    Number(String),
    Text(String),
    Sequence(Vec<ConfigValue>),
    Mapping,
}

/// The text that stands for a truth value.
pub open spec fn bool_text(b: bool) -> Seq<char> {
    if b {
        "true"@
    } else {
        "false"@
    }
}

/// The texts `parts`, with `separator` between each two of them.
pub open spec fn joined(parts: Seq<Seq<char>>, separator: Seq<char>) -> Seq<char>
    decreases parts.len(),
{
    if parts.len() == 0 {
        Seq::empty()
    } else if parts.len() == 1 {
        parts[0]
    } else {
        joined(parts.drop_last(), separator) + separator + parts.last()
    }
}

/// The text that stands for a truth value.
pub fn bool_string(b: bool) -> (text: String)
    ensures
        text@ == bool_text(b),
{
    if b {
        "true".to_owned()
    } else {
        "false".to_owned()
    }
}

impl ConfigValue {
    /// True of the values that a configuration can hold as text: all but
    /// the missing value and the mapping.
    pub open spec fn has_text(&self) -> bool {
        !(self is Null) && !(self is Mapping)
    }

    /// The text that stands for the value where it is an item of a
    /// sequence.
    pub open spec fn item_text(&self) -> Seq<char> {
        match self {
            ConfigValue::Text(x) => x@,
            ConfigValue::Bool(b) => bool_text(*b),
            ConfigValue::Mapping => "unexpected_map"@,
            ConfigValue::Null => "null"@,
            ConfigValue::Number(n) => n@,
            ConfigValue::Sequence(_) => "unexpected_sequence"@,
        }
    }

    /// The text that a configuration holds for the value: that of a text,
    /// a truth value or a number, and for a sequence the texts of its items
    /// with commas between them.
    pub open spec fn text(&self) -> Seq<char> {
        match self {
            ConfigValue::Text(v) => v@,
            ConfigValue::Bool(v) => bool_text(*v),
            ConfigValue::Number(v) => v@,
            ConfigValue::Sequence(s) => joined(
                s@.map_values(|x: ConfigValue| x.item_text()),
                ","@,
            ),
            _ => Seq::empty(),
        }
    }

    /// Says whether a configuration can hold the value as text.
    pub fn is_text(&self) -> (b: bool)
        ensures
            b == self.has_text(),
    {
        match self {
            ConfigValue::Null => false,
            ConfigValue::Mapping => false,
            _ => true,
        }
    }

    /// The text that stands for the value where it is an item of a
    /// sequence.
    pub fn item_string(&self) -> (text: String)
        ensures
            text@ == self.item_text(),
    {
        match self {
            ConfigValue::Text(x) => x.clone(),
            ConfigValue::Bool(b) => bool_string(*b),
            ConfigValue::Mapping => "unexpected_map".to_owned(),
            ConfigValue::Null => "null".to_owned(),
            ConfigValue::Number(n) => n.clone(),
            ConfigValue::Sequence(_) => "unexpected_sequence".to_owned(),
        }
    }

    /// The text that a configuration holds for the value.
    pub fn to_text(&self) -> (text: String)
        requires
            self.has_text(),
        ensures
            text@ == self.text(),
    {
        match self {
            ConfigValue::Text(v) => v.clone(),
            ConfigValue::Bool(v) => bool_string(*v),
            ConfigValue::Number(v) => v.clone(),
            ConfigValue::Sequence(s) => {
                let ghost parts = s@.map_values(|x: ConfigValue| x.item_text());
                let mut text = String::new();
                let mut i: usize = 0;
                while i < s.len()
                    invariant
                        i <= s.len(),
                        parts == s@.map_values(|x: ConfigValue| x.item_text()),
                        text@ == joined(parts.take(i as int), ","@),
                    decreases s.len() - i,
                {
                    let item = s[i].item_string();
                    proof {
                        let now = parts.take(i as int + 1);
                        assert(now.drop_last() =~= parts.take(i as int));
                        assert(now.last() == item@);
                    }
                    if i > 0 {
                        text = text.concat(",");
                    }
                    text = text.concat(item.as_str());
                    i = i + 1;
                }
                assert(parts.take(s.len() as int) =~= parts);
                text
            },
            _ => String::new(),
        }
    }
}

/// The configuration `config` after the first `upto` of `entries` were
/// written to it, each value as the text that stands for it.  A key that
/// is written again holds what was written last.
pub open spec fn written(
    config: Map<Seq<char>, Seq<char>>,
    entries: Seq<(String, ConfigValue)>,
    upto: int,
) -> Map<Seq<char>, Seq<char>>
    decreases upto,
{
    if upto <= 0 {
        config
    } else {
        written(config, entries, upto - 1).insert(entries[upto - 1].0@, entries[upto - 1].1.text())
    }
}

/// True when a configuration can hold each value of `entries` as text.
pub open spec fn all_text(entries: Seq<(String, ConfigValue)>) -> bool {
    forall|i: int| 0 <= i < entries.len() ==> (#[trigger] entries[i]).1.has_text()
}

/// Says whether a configuration can hold each value of `entries` as text.
pub fn is_all_text(entries: &Vec<(String, ConfigValue)>) -> (b: bool)
    ensures
        b == all_text(entries@),
{
    let mut i: usize = 0;
    while i < entries.len()
        invariant
            i <= entries.len(),
            forall|j: int| 0 <= j < i ==> (#[trigger] entries[j]).1.has_text(),
        decreases entries.len() - i,
    {
        if !entries[i].1.is_text() {
            return false;
        }
        i = i + 1;
    }
    true
}

/// Writes `src` to `config`: each key with the text that stands for its
/// value.
pub fn add_config_to_map(config: &mut StringMap<String>, src: &Vec<(String, ConfigValue)>)
    requires
        old(config).wf(),
        all_text(src@),
    ensures
        final(config).wf(),
        final(config).texts() == written(old(config).texts(), src@, src.len() as int),
{
    let mut i: usize = 0;
    while i < src.len()
        invariant
            config.wf(),
            all_text(src@),
            i <= src.len(),
            config.texts() == written(old(config).texts(), src@, i as int),
        decreases src.len() - i,
    {
        let ghost before = *config;
        let value = src[i].1.to_text();
        config.insert(src[i].0.clone(), value);
        proof {
            StringMap::lemma_texts_insert(before, *config, src[i as int].0@, value);
        }
        i = i + 1;
    }
}

/// What a build file says of all its modules.
pub struct Defaults {
    /// The type of the modules that name none.
    pub module_type: Option<String>,
    /// The configuration that every module starts from.
    pub config: Option<Vec<(String, ConfigValue)>>,
}

/// What a build file says of one module.
pub struct ModuleDecl {
    pub name: String,
    /// The directory of the module, where it is not its name.
    pub path: Option<String>,
    pub module_type: Option<String>,
    /// The names of the modules that the module depends on.
    pub deps: Option<Vec<String>>,
    pub config: Option<Vec<(String, ConfigValue)>>,
}

/// The path that `std::path::PathBuf::from` makes of a text.
pub uninterp spec fn path_from(text: Seq<char>) -> PathBuf;

/// `PathBuf::from` of the standard library, applied to a text.  The
/// contract gives the result its name: the path depends on the text alone.
#[verifier::external_body]
fn path_of(text: &str) -> (path: PathBuf)
    ensures
        path == path_from(text@),
{
    PathBuf::from(text)
}

/// `Path::join` of the standard library.  What the joined path is depends
/// on the platform, so nothing is claimed of it.
#[verifier::external_body]
fn path_below(directory: &PathBuf, name: &str) -> PathBuf {
    directory.join(name)
}

/// The entries of a configuration that may be missing.
pub open spec fn entries_of(config: Option<Vec<(String, ConfigValue)>>) -> Seq<(String, ConfigValue)> {
    match config {
        Some(entries) => entries@,
        None => Seq::empty(),
    }
}

/// The names of the dependencies that may be missing.
pub open spec fn deps_of(decl: ModuleDecl) -> Seq<Seq<char>> {
    match decl.deps {
        Some(deps) => views(deps@),
        None => Seq::empty(),
    }
}

impl Defaults {
    /// True when a configuration can hold each default value as text.
    pub open spec fn wf(&self) -> bool {
        all_text(entries_of(self.config))
    }

    /// The type of the modules that name none.
    pub open spec fn type_text(&self) -> Seq<char> {
        match self.module_type {
            Some(t) => t@,
            None => DEFAULT_MODULE_TYPE@,
        }
    }

    /// Says whether a configuration can hold each default value as text.
    pub fn is_wf(&self) -> (b: bool)
        ensures
            b == self.wf(),
    {
        match &self.config {
            Some(entries) => is_all_text(entries),
            None => true,
        }
    }
}

impl ModuleDecl {
    /// True when a configuration can hold each value of the module as text.
    pub open spec fn wf(&self) -> bool {
        all_text(entries_of(self.config))
    }

    /// The type of the module: its own, or the default.
    pub open spec fn type_text(&self, defaults: Defaults) -> Seq<char> {
        match self.module_type {
            Some(t) => t@,
            None => defaults.type_text(),
        }
    }

    /// The directory of the module as the build file gives it: the path,
    /// or the name where there is no path.
    pub open spec fn directory_text(&self) -> Seq<char> {
        match self.path {
            Some(p) => p@,
            None => self.name@,
        }
    }

    /// The configuration of the module: the defaults, overwritten by what
    /// the module says itself.
    pub open spec fn config_texts(&self, defaults: Defaults) -> Map<Seq<char>, Seq<char>> {
        written(
            written(Map::empty(), entries_of(defaults.config), entries_of(defaults.config).len() as int),
            entries_of(self.config),
            entries_of(self.config).len() as int,
        )
    }

    /// True when `module` is the module that the declaration describes.
    pub open spec fn describes(&self, defaults: Defaults, module: Module) -> bool {
        &&& module.wf()
        &&& module.spec_name() == self.name@
        &&& module.spec_module_dir() == path_from(self.directory_text())
        &&& module.spec_types().names() == seq![self.type_text(defaults)]
        &&& module.spec_config().texts() == self.config_texts(defaults)
    }

    /// Says whether a configuration can hold each value of the module as
    /// text.
    pub fn is_wf(&self) -> (b: bool)
        ensures
            b == self.wf(),
    {
        match &self.config {
            Some(entries) => is_all_text(entries),
            None => true,
        }
    }

    /// The module that the declaration describes.  It is built in the
    /// directory `build` below its own.
    pub fn to_module(&self, defaults: &Defaults) -> (module: Module)
        requires
            self.wf(),
            defaults.wf(),
        ensures
            self.describes(*defaults, module),
    {
        let mut config: StringMap<String> = StringMap::new();
        assert(config.texts() =~= Map::<Seq<char>, Seq<char>>::empty());
        if let Some(entries) = &defaults.config {
            add_config_to_map(&mut config, entries);
        }
        if let Some(entries) = &self.config {
            add_config_to_map(&mut config, entries);
        }
        let plugin = match &self.module_type {
            Some(t) => t.clone(),
            None => match &defaults.module_type {
                Some(t) => t.clone(),
                None => DEFAULT_MODULE_TYPE.to_owned(),
            },
        };
        let directory = match &self.path {
            Some(p) => path_of(p.as_str()),
            None => path_of(self.name.as_str()),
        };
        let build_dir = path_below(&directory, DEFAULT_BUILD_FOLDER);
        let mut types = StringSet::new();
        types.insert(plugin);
        Module::new(self.name.as_str(), directory, build_dir, types, config)
    }
}

/// The module graph after the first `upto` of `decls` were registered.
pub open spec fn declared(modules: Graph, decls: Seq<ModuleDecl>, upto: int) -> Graph
    decreases upto,
{
    if upto <= 0 {
        modules
    } else {
        with_node(declared(modules, decls, upto - 1), decls[upto - 1].name@)
    }
}

/// The names of the modules after the first `upto` of `decls` were
/// registered: each new name behind those that were there.
pub open spec fn listed(
    names: Seq<Seq<char>>,
    modules: Graph,
    decls: Seq<ModuleDecl>,
    upto: int,
) -> Seq<Seq<char>>
    decreases upto,
{
    if upto <= 0 {
        names
    } else {
        let before = listed(names, modules, decls, upto - 1);
        if declared(modules, decls, upto - 1).contains_key(decls[upto - 1].name@) {
            before
        } else {
            before.push(decls[upto - 1].name@)
        }
    }
}

/// The module graph after the module `name` was made to depend on the
/// first `upto` of `deps`.
pub open spec fn wired_to(modules: Graph, name: Seq<char>, deps: Seq<Seq<char>>, upto: int) -> Graph
    decreases upto,
{
    if upto <= 0 {
        modules
    } else {
        with_edge(wired_to(modules, name, deps, upto - 1), name, deps[upto - 1])
    }
}

/// The module graph after each of the first `upto` of `decls` was made to
/// depend on the modules that it names.
pub open spec fn wired(modules: Graph, decls: Seq<ModuleDecl>, upto: int) -> Graph
    decreases upto,
{
    if upto <= 0 {
        modules
    } else {
        wired_to(
            wired(modules, decls, upto - 1),
            decls[upto - 1].name@,
            deps_of(decls[upto - 1]),
            deps_of(decls[upto - 1]).len() as int,
        )
    }
}

/// True when the dependency at position `j` of the declaration at position
/// `i` comes before that at position `b` of the declaration at position
/// `a`.
pub open spec fn comes_before(i: int, j: int, a: int, b: int) -> bool {
    i < a || (i == a && j < b)
}

/// True when every dependency that `decls` names is a module of `modules`.
pub open spec fn resolvable(modules: Graph, decls: Seq<ModuleDecl>) -> bool {
    forall|i: int, j: int|
        0 <= i < decls.len() && 0 <= j < deps_of(decls[i]).len() ==> modules.contains_key(
            #[trigger] deps_of(decls[i])[j],
        )
}

/// True when the dependency at position `j` of the declaration at position
/// `i` is the first that is no module of `modules`, `e` says so, and `after`
/// is `modules` with the dependencies before that one declared.
pub open spec fn first_unresolved(
    modules: Graph,
    decls: Seq<ModuleDecl>,
    i: int,
    j: int,
    e: Error,
    after: Graph,
) -> bool {
    &&& 0 <= i < decls.len()
    &&& after == wired_to(wired(modules, decls, i), decls[i].name@, deps_of(decls[i]), j)
    &&& 0 <= j < deps_of(decls[i]).len()
    &&& !modules.contains_key(deps_of(decls[i])[j])
    &&& e.is_item_not_found(deps_of(decls[i])[j])
    &&& forall|a: int, b: int|
        0 <= a < decls.len() && 0 <= b < deps_of(decls[a]).len() && comes_before(a, b, i, j)
            ==> modules.contains_key(#[trigger] deps_of(decls[a])[b])
}

/// True when `e` names the first dependency among those of `decls` that is
/// no module of `modules`, and `after` is `modules` with the dependencies
/// before that one declared.
pub open spec fn reports_unresolved(
    modules: Graph,
    decls: Seq<ModuleDecl>,
    e: Error,
    after: Graph,
) -> bool {
    exists|i: int, j: int| #[trigger] first_unresolved(modules, decls, i, j, e, after)
}

/// True when the module at position `i` is not declared again behind it.
pub open spec fn is_last(decls: Seq<ModuleDecl>, i: int, upto: int) -> bool {
    forall|k: int| i < k < upto ==> (#[trigger] decls[k]).name@ != decls[i].name@
}

/// True when no declaration among the first `upto` bears the name `name`.
pub open spec fn undeclared(decls: Seq<ModuleDecl>, name: Seq<char>, upto: int) -> bool {
    forall|k: int| 0 <= k < upto ==> (#[trigger] decls[k]).name@ != name
}

/// True when a configuration can hold each value of `defaults` and of
/// `decls` as text.
pub open spec fn loadable(defaults: Defaults, decls: Seq<ModuleDecl>) -> bool {
    defaults.wf() && forall|i: int| 0 <= i < decls.len() ==> (#[trigger] decls[i]).wf()
}

/// Says whether a configuration can hold each value of `defaults` and of
/// `decls` as text.
pub fn can_load(defaults: &Defaults, decls: &Vec<ModuleDecl>) -> (b: bool)
    ensures
        b == loadable(*defaults, decls@),
{
    if !defaults.is_wf() {
        return false;
    }
    let mut i: usize = 0;
    while i < decls.len()
        invariant
            i <= decls.len(),
            defaults.wf(),
            forall|j: int| 0 <= j < i ==> (#[trigger] decls[j]).wf(),
        decreases decls.len() - i,
    {
        if !decls[i].is_wf() {
            return false;
        }
        i = i + 1;
    }
    true
}

/// Registering modules keeps the modules that were there, and each
/// declared module is there afterwards.
pub proof fn lemma_declared_names(modules: Graph, decls: Seq<ModuleDecl>, upto: int)
    requires
        0 <= upto <= decls.len(),
    ensures
        forall|name: Seq<char>|
            modules.contains_key(name) ==> declared(modules, decls, upto).contains_key(name),
        forall|i: int|
            0 <= i < upto ==> declared(modules, decls, upto).contains_key(
                (#[trigger] decls[i]).name@,
            ),
    decreases upto,
{
    if upto > 0 {
        lemma_declared_names(modules, decls, upto - 1);
    }
}

/// Declaring dependencies leaves the names of the modules as they are.
pub proof fn lemma_wired_to_keeps_names(
    modules: Graph,
    name: Seq<char>,
    deps: Seq<Seq<char>>,
    upto: int,
)
    ensures
        wired_to(modules, name, deps, upto).dom() == modules.dom(),
    decreases upto,
{
    if upto > 0 {
        lemma_wired_to_keeps_names(modules, name, deps, upto - 1);
        law_with_edge_effect(wired_to(modules, name, deps, upto - 1), name, deps[upto - 1]);
    }
}

/// Declaring dependencies leaves the names of the modules as they are.
pub proof fn lemma_wired_keeps_names(modules: Graph, decls: Seq<ModuleDecl>, upto: int)
    ensures
        wired(modules, decls, upto).dom() == modules.dom(),
    decreases upto,
{
    if upto > 0 {
        lemma_wired_keeps_names(modules, decls, upto - 1);
        lemma_wired_to_keeps_names(
            wired(modules, decls, upto - 1),
            decls[upto - 1].name@,
            deps_of(decls[upto - 1]),
            deps_of(decls[upto - 1]).len() as int,
        );
    }
}

/// Registers the modules that `decls` describe, in their order, and then
/// declares the dependencies that they name.  Stops at the first
/// dependency that is no module, with the modules registered and the
/// dependencies before it declared.
pub fn load(context: &mut Context, defaults: &Defaults, decls: &Vec<ModuleDecl>) -> (done: Result<
    (),
    Error,
>)
    requires
        old(context).wf(),
        loadable(*defaults, decls@),
    ensures
        final(context).wf(),
        final(context).task_items() == old(context).task_items(),
        final(context).task_deps() == old(context).task_deps(),
        final(context).module_names() == listed(
            old(context).module_names(),
            old(context).module_deps(),
            decls@,
            decls.len() as int,
        ),
        final(context).module_deps().dom() == declared(
            old(context).module_deps(),
            decls@,
            decls.len() as int,
        ).dom(),
        forall|i: int|
            0 <= i < decls.len() && is_last(decls@, i, decls.len() as int) ==> (
            #[trigger] decls[i]).describes(
                *defaults,
                *final(context).module_items()[decls[i].name@],
            ),
        forall|name: Seq<char>|
            old(context).module_items().contains_key(name) && undeclared(
                decls@,
                name,
                decls.len() as int,
            ) ==> (#[trigger] final(context).module_items()[name]) == old(context).module_items()[name],
        done.is_ok() == resolvable(
            declared(old(context).module_deps(), decls@, decls.len() as int),
            decls@,
        ),
        done.is_ok() ==> final(context).module_deps() == wired(
            declared(old(context).module_deps(), decls@, decls.len() as int),
            decls@,
            decls.len() as int,
        ),
        done matches Err(e) ==> reports_unresolved(
            declared(old(context).module_deps(), decls@, decls.len() as int),
            decls@,
            e,
            final(context).module_deps(),
        ),
{
    let ghost names0 = context.module_names();
    let ghost modules0 = context.module_deps();
    let ghost items0 = context.module_items();
    let mut i: usize = 0;
    while i < decls.len()
        invariant
            context.wf(),
            loadable(*defaults, decls@),
            context.task_items() == old(context).task_items(),
            context.task_deps() == old(context).task_deps(),
            names0 == old(context).module_names(),
            modules0 == old(context).module_deps(),
            items0 == old(context).module_items(),
            i <= decls.len(),
            context.module_names() == listed(names0, modules0, decls@, i as int),
            context.module_deps() == declared(modules0, decls@, i as int),
            forall|a: int|
                0 <= a < i && is_last(decls@, a, i as int) ==> context.module_items().contains_key(
                    (#[trigger] decls[a]).name@,
                ) && decls[a].describes(*defaults, *context.module_items()[decls[a].name@]),
            forall|name: Seq<char>|
                items0.contains_key(name) && undeclared(decls@, name, i as int)
                    ==> context.module_items().contains_key(name) && (#[trigger] context.module_items()[name])
                    == items0[name],
        decreases decls.len() - i,
    {
        // What was there and is not declared is still there.
        assert forall|name: Seq<char>|
            items0.contains_key(name) && undeclared(decls@, name, i as int) implies context.module_items().contains_key(
            name,
        ) by {
            let kept = context.module_items()[name];
        }
        let decl = &decls[i];
        let module = decl.to_module(defaults);
        let ghost before = context.module_items();
        context.add_module(decl.name.as_str(), module);

        proof {
            assert forall|a: int| 0 <= a < i + 1 && is_last(decls@, a, i as int + 1) implies context.module_items().contains_key(
                (#[trigger] decls[a]).name@,
            ) && decls[a].describes(*defaults, *context.module_items()[decls[a].name@]) by {
                if a < i {
                    assert(decls[i as int].name@ != decls[a].name@);
                    assert(is_last(decls@, a, i as int));
                }
            }
            assert forall|name: Seq<char>|
                items0.contains_key(name) && undeclared(decls@, name, i as int + 1) implies context.module_items().contains_key(
                name,
            ) && (#[trigger] context.module_items()[name]) == items0[name] by {
                assert(decls[i as int].name@ != name);
                assert(undeclared(decls@, name, i as int));
                assert(before.contains_key(name) && before[name] == items0[name]);
            }
        }
        i = i + 1;
    }
    let ghost all = declared(modules0, decls@, decls.len() as int);
    let ghost items1 = context.module_items();
    let ghost names1 = context.module_names();
    proof {
        lemma_declared_names(modules0, decls@, decls.len() as int);
    }
    let mut i: usize = 0;
    while i < decls.len()
        invariant
            context.wf(),
            context.task_items() == old(context).task_items(),
            context.task_deps() == old(context).task_deps(),
            context.module_items() == items1,
            context.module_names() == names1,
            names1 == listed(
                old(context).module_names(),
                old(context).module_deps(),
                decls@,
                decls.len() as int,
            ),
            forall|a: int|
                0 <= a < decls.len() && is_last(decls@, a, decls.len() as int) ==> (
                #[trigger] decls[a]).describes(*defaults, *items1[decls[a].name@]),
            forall|name: Seq<char>|
                old(context).module_items().contains_key(name) && undeclared(
                    decls@,
                    name,
                    decls.len() as int,
                ) ==> (#[trigger] items1[name]) == old(context).module_items()[name],
            all == declared(old(context).module_deps(), decls@, decls.len() as int),
            forall|k: int| 0 <= k < decls.len() ==> all.contains_key((#[trigger] decls[k]).name@),
            i <= decls.len(),
            context.module_deps() == wired(all, decls@, i as int),
            context.module_deps().dom() == all.dom(),
            forall|a: int, b: int|
                0 <= a < i && 0 <= b < deps_of(decls[a]).len() ==> all.contains_key(
                    #[trigger] deps_of(decls[a])[b],
                ),
        decreases decls.len() - i,
    {
        let decl = &decls[i];
        let ghost start = context.module_deps();
        let ghost wanted = deps_of(*decl);
        if let Some(deps) = &decl.deps {
            let mut j: usize = 0;
            while j < deps.len()
                invariant
                    context.wf(),
                    context.task_items() == old(context).task_items(),
                    context.task_deps() == old(context).task_deps(),
                    context.module_items() == items1,
                    context.module_names() == names1,
                    names1 == listed(
                        old(context).module_names(),
                        old(context).module_deps(),
                        decls@,
                        decls.len() as int,
                    ),
                    forall|a: int|
                        0 <= a < decls.len() && is_last(decls@, a, decls.len() as int) ==> (
                        #[trigger] decls[a]).describes(*defaults, *items1[decls[a].name@]),
                    forall|name: Seq<char>|
                        old(context).module_items().contains_key(name) && undeclared(
                            decls@,
                            name,
                            decls.len() as int,
                        ) ==> (#[trigger] items1[name]) == old(context).module_items()[name],
                    all == declared(old(context).module_deps(), decls@, decls.len() as int),
                    i < decls.len(),
                    *decl == decls[i as int],
                    decl.deps == Some(*deps),
                    wanted == views(deps@),
                    all.contains_key(decl.name@),
                    start == wired(all, decls@, i as int),
                    start.dom() == all.dom(),
                    j <= deps.len(),
                    context.module_deps() == wired_to(start, decl.name@, wanted, j as int),
                    context.module_deps().dom() == all.dom(),
                    forall|a: int, b: int|
                        0 <= a < i && 0 <= b < deps_of(decls[a]).len() ==> all.contains_key(
                            #[trigger] deps_of(decls[a])[b],
                        ),
                    forall|b: int| 0 <= b < j ==> all.contains_key(#[trigger] wanted[b]),
                decreases deps.len() - j,
            {
                let dep = &deps[j];
                assert(wanted[j as int] == dep@);
                let wired = match context.module(decl.name.as_str()) {
                    Ok(mut handle) => handle.depends_on(dep.as_str()),
                    Err(e) => Err(e),
                };
                match wired {
                    Ok(()) => {},
                    Err(e) => {
                        assert(first_unresolved(
                            all,
                            decls@,
                            i as int,
                            j as int,
                            e,
                            context.module_deps(),
                        )) by {
                            assert(deps_of(decls[i as int]) == wanted);
                            assert(wanted.len() == deps.len());
                            assert forall|a: int, b: int|
                                0 <= a < decls.len() && 0 <= b < deps_of(decls[a]).len()
                                    && comes_before(a, b, i as int, j as int) implies all.contains_key(
                                #[trigger] deps_of(decls[a])[b],
                            ) by {
                                if a == i {
                                    assert(all.contains_key(wanted[b]));
                                }
                            }
                        }
                        return Err(e);
                    },
                }
                proof {
                    lemma_wired_to_keeps_names(start, decl.name@, wanted, j as int + 1);
                }
                j = j + 1;
            }
            assert(wanted.len() == deps.len());
        }
        assert(context.module_deps() == wired(all, decls@, i as int + 1));
        assert forall|a: int, b: int|
            0 <= a < i + 1 && 0 <= b < deps_of(decls[a]).len() implies all.contains_key(
            #[trigger] deps_of(decls[a])[b],
        ) by {
            if a == i {
                assert(deps_of(decls[a]) == wanted);
            }
        }
        i = i + 1;
    }
    Ok(())
}

} // verus!
