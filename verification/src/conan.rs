//! The rules by which modules of type `conan` become tasks.

use vstd::prelude::*;
use vstd::string::*;
use crate::context::Context;
use crate::error::BuildError;
use crate::error::Error;
use crate::graph::Graph;
use crate::graph::can_depend;
use crate::graph::dependency_set;
use crate::graph::law_with_edge_effect;
use crate::graph::with_edge;
use crate::graph::with_node;
use crate::module::Module;
use crate::names::StringMap;
use crate::names::clone_strings;
use crate::names::position;
use crate::names::views;
use crate::task::Task;

verus! {

/// The type tag of the modules that the plugin claims.
pub const CONAN_MODULE_TYPE: &'static str = "conan";

/// The task that every clean task of a module hangs under.
pub const CONAN_CLEAN_TASK: &'static str = "clean";

/// The task that every build task of a module hangs under.
pub const CONAN_BUILD_TASK: &'static str = "build";

pub const CONAN_NAME_PROPERTY: &'static str = "conan.name";

pub const CONAN_VERSION_PROPERTY: &'static str = "conan.version";

pub const CONAN_USER_PROPERTY: &'static str = "conan.user";

pub const CONAN_CHANNEL_PROPERTY: &'static str = "conan.channel";

pub const CONAN_DESCRIPTION_PROPERTY: &'static str = "conan.description";

pub const CONAN_REQUIRES_PROPERTY: &'static str = "conan.requires";

pub const CONAN_MODULE_PATH_PROPERTY: &'static str = "conan.module_path";

pub const CONAN_CONANFILE_PATH_PROPERTY: &'static str = "conan.conanfile";

pub const CONAN_ARTIFACT_TYPE: &'static str = "conan.artifact_type";

pub const CONAN_ARTIFACT_NAME: &'static str = "conan.artifact_name";

pub const CONAN_ARTIFACT_TYPE_LIB: &'static str = "lib";

pub const CONAN_ARTIFACT_TYPE_BIN: &'static str = "bin";

/// A configuration as the rules see it: the text under each key.
pub open spec fn texts(config: StringMap<String>) -> Map<Seq<char>, Seq<char>> {
    config.texts()
}

/// The configuration with `key` bound to `value` unless it is bound
/// already.
pub open spec fn with_default(
    config: Map<Seq<char>, Seq<char>>,
    key: Seq<char>,
    value: Seq<char>,
) -> Map<Seq<char>, Seq<char>> {
    if config.contains_key(key) {
        config
    } else {
        config.insert(key, value)
    }
}

/// The configuration that a build runs with: that of the module, with the
/// name of the module as the name of the project, the directory of the
/// module as its path and no requirements, each unless the module says
/// otherwise.
pub open spec fn with_defaults(
    config: Map<Seq<char>, Seq<char>>,
    name: Seq<char>,
    path: Seq<char>,
) -> Map<Seq<char>, Seq<char>> {
    with_default(
        with_default(
            with_default(config, CONAN_NAME_PROPERTY@, name),
            CONAN_MODULE_PATH_PROPERTY@,
            path,
        ),
        CONAN_REQUIRES_PROPERTY@,
        Seq::empty(),
    )
}

/// Binds `key` to `value` unless it is bound already.
pub fn set_default(config: &mut StringMap<String>, key: &str, value: String)
    requires
        old(config).wf(),
    ensures
        final(config).wf(),
        texts(*final(config)) == with_default(texts(*old(config)), key@, value@),
{
    if !config.contains_key(key) {
        let ghost before = *config;
        config.insert(key.to_owned(), value);
        proof {
            StringMap::lemma_texts_insert(before, *config, key@, value);
        }
    }
}

/// The configuration that a build of the module runs with, where
/// `directory` is the directory of the module.
pub fn build_config(m: &Module, directory: &str) -> (config: StringMap<String>)
    requires
        m.wf(),
    ensures
        config.wf(),
        texts(config) == with_defaults(texts(m.spec_config()), m.spec_name(), directory@),
{
    let mut config = m.config().duplicate();
    set_default(&mut config, CONAN_NAME_PROPERTY, m.name().clone());
    set_default(&mut config, CONAN_MODULE_PATH_PROPERTY, directory.to_owned());
    set_default(&mut config, CONAN_REQUIRES_PROPERTY, String::new());
    config
}

/// One call of the packaging tool.
#[derive(Debug, Clone, Copy, PartialEq, Eq, Structural)]
pub enum ConanStep {
    Install,
    Create,
    Build,
}

/// The calls that produce an artifact of the type `artifact_type`: a
/// library is installed and created, a binary is installed and built.
pub open spec fn steps_of(artifact_type: Seq<char>) -> Option<Seq<ConanStep>> {
    if artifact_type == CONAN_ARTIFACT_TYPE_LIB@ {
        Some(seq![ConanStep::Install, ConanStep::Create])
    } else if artifact_type == CONAN_ARTIFACT_TYPE_BIN@ {
        Some(seq![ConanStep::Install, ConanStep::Build])
    } else {
        None
    }
}

/// The calls that produce an artifact of the type `artifact_type`, or an
/// error where there is no such type.
pub fn conan_steps(artifact_type: &str) -> (steps: Result<Vec<ConanStep>, BuildError>)
    ensures
        steps.is_ok() == steps_of(artifact_type@).is_some(),
        steps matches Ok(v) ==> Some(v@) == steps_of(artifact_type@),
        steps matches Err(e) ==> e matches BuildError::IOError(msg) && msg@
            == "Unknown artifact type "@ + artifact_type@ + "."@,
{
    let kind = artifact_type.to_owned();
    if kind == CONAN_ARTIFACT_TYPE_LIB.to_owned() {
        let mut steps: Vec<ConanStep> = Vec::new();
        steps.push(ConanStep::Install);
        steps.push(ConanStep::Create);
        assert(steps@ =~= seq![ConanStep::Install, ConanStep::Create]);
        Ok(steps)
    } else if kind == CONAN_ARTIFACT_TYPE_BIN.to_owned() {
        let mut steps: Vec<ConanStep> = Vec::new();
        steps.push(ConanStep::Install);
        steps.push(ConanStep::Build);
        assert(steps@ =~= seq![ConanStep::Install, ConanStep::Build]);
        Ok(steps)
    } else {
        Err(BuildError::IOError("Unknown artifact type ".to_owned().concat(artifact_type).concat(".")))
    }
}

/// What a call of the packaging tool works on.  Paths are given as text.
pub enum ConanConfig {
    Create { conanfile: String, user: String, channel: String },
    Install { conanfile: String, install_folder: String },
    Build { conanfile: String, source_folder: String, install_folder: String, build_folder: String },
}

/// The arguments of a call of the packaging tool.
pub open spec fn arguments_of(config: ConanConfig) -> Seq<Seq<char>> {
    match config {
        ConanConfig::Create { conanfile, user, channel } => seq![
            "create"@,
            conanfile@,
            user@ + "/"@ + channel@,
        ],
        ConanConfig::Install { conanfile, install_folder } => seq![
            "install"@,
            conanfile@,
            "--build=missing"@,
            "--install-folder="@ + install_folder@,
        ],
        ConanConfig::Build { conanfile, source_folder, install_folder, build_folder } => seq![
            "build"@,
            conanfile@,
            "--source-folder="@ + source_folder@,
            "--install-folder="@ + install_folder@,
            "--build-folder="@ + build_folder@,
        ],
    }
}

/// The arguments of a call of the packaging tool.
pub fn conan_arguments(config: &ConanConfig) -> (arguments: Vec<String>)
    ensures
        views(arguments@) == arguments_of(*config),
{
    let mut arguments: Vec<String> = Vec::new();
    match config {
        ConanConfig::Create { conanfile, user, channel } => {
            arguments.push("create".to_owned());
            arguments.push(conanfile.clone());
            arguments.push(user.clone().concat("/").concat(channel.as_str()));
        },
        ConanConfig::Install { conanfile, install_folder } => {
            arguments.push("install".to_owned());
            arguments.push(conanfile.clone());
            arguments.push("--build=missing".to_owned());
            arguments.push("--install-folder=".to_owned().concat(install_folder.as_str()));
        },
        ConanConfig::Build { conanfile, source_folder, install_folder, build_folder } => {
            arguments.push("build".to_owned());
            arguments.push(conanfile.clone());
            arguments.push("--source-folder=".to_owned().concat(source_folder.as_str()));
            arguments.push("--install-folder=".to_owned().concat(install_folder.as_str()));
            arguments.push("--build-folder=".to_owned().concat(build_folder.as_str()));
        },
    }
    assert(views(arguments@) =~= arguments_of(*config));
    arguments
}

/// The text `text` with each occurrence of `pattern` replaced by `with`.
/// Occurrences are found from left to right, and the search goes on behind
/// an occurrence that was replaced.
pub open spec fn replaced(text: Seq<char>, pattern: Seq<char>, with: Seq<char>) -> Seq<char>
    decreases text.len(),
{
    if pattern.len() == 0 || text.len() < pattern.len() {
        text
    } else if text.subrange(0, pattern.len() as int) == pattern {
        with + replaced(text.skip(pattern.len() as int), pattern, with)
    } else {
        seq![text[0]] + replaced(text.skip(1), pattern, with)
    }
}

/// `str::replace` of the standard library, for a pattern that is not
/// empty.  The contract claims what its documentation says: the result is
/// the text with all matches of the pattern replaced, where matches are
/// found from left to right and do not overlap.
#[verifier::external_body]
fn replace_all(text: &str, pattern: &str, with: &str) -> (out: String)
    requires
        pattern@.len() > 0,
    ensures
        out@ == replaced(text@, pattern@, with@),
{
    text.replace(pattern, with)
}

/// The form in which a template refers to the key `key`.
pub open spec fn placeholder(key: Seq<char>) -> Seq<char> {
    "${"@ + key + "}"@
}

/// The template `template` with the placeholders of the first `upto` of
/// `keys` replaced by their values, one key after the other.
pub open spec fn rendered(
    template: Seq<char>,
    keys: Seq<Seq<char>>,
    values: Seq<Seq<char>>,
    upto: int,
) -> Seq<char>
    decreases upto,
{
    if upto <= 0 {
        template
    } else {
        replaced(
            rendered(template, keys, values, upto - 1),
            placeholder(keys[upto - 1]),
            values[upto - 1],
        )
    }
}

/// Fills a template in: the placeholder of each key of `config` is
/// replaced by the key's value, one key after the other in the order of the
/// configuration.
pub fn render(template: &str, config: &StringMap<String>) -> (out: String)
    requires
        config.wf(),
    ensures
        out@ == rendered(
            template@,
            config.keys(),
            views(config.values()),
            config.keys().len() as int,
        ),
{
    let mut out = template.to_owned();
    let mut i: usize = 0;
    while i < config.len()
        invariant
            config.wf(),
            i <= config.keys().len(),
            out@ == rendered(template@, config.keys(), views(config.values()), i as int),
        decreases config.keys().len() - i,
    {
        let pattern = "${".to_owned().concat(config.key_at(i).as_str()).concat("}");
        proof {
            reveal_strlit("${");
        }
        out = replace_all(out.as_str(), pattern.as_str(), config.value_at(i).as_str());
        i = i + 1;
    }
    out
}

/// True when a build is due: there is no record of an earlier build, or
/// one of the files of the module was modified at or after the time of
/// that record.
pub open spec fn rebuild_due(built: Option<u128>, modified: Seq<u128>) -> bool {
    match built {
        None => true,
        Some(at) => exists|i: int| 0 <= i < modified.len() && #[trigger] modified[i] >= at,
    }
}

/// Decides whether a build is due, from the time of the last build, if one
/// is on record, and the times at which the files of the module were
/// modified.
pub fn needs_rebuild(built: Option<u128>, modified: &Vec<u128>) -> (due: bool)
    ensures
        due == rebuild_due(built, modified@),
{
    let at = match built {
        None => {
            return true;
        },
        Some(at) => at,
    };
    let mut i: usize = 0;
    while i < modified.len()
        invariant
            i <= modified.len(),
            built == Some(at),
            forall|j: int| 0 <= j < i ==> modified[j] < at,
        decreases modified.len() - i,
    {
        if modified[i] >= at {
            return true;
        }
        i = i + 1;
    }
    false
}

/// True when `key` is bound to `value`.
pub open spec fn is_value(config: Map<Seq<char>, Seq<char>>, key: Seq<char>, value: Seq<char>) -> bool {
    config.contains_key(key) && config[key] == value
}

/// True when the module produces a library and says under which user and
/// channel and with which artifact name.
pub open spec fn library_described(config: Map<Seq<char>, Seq<char>>) -> bool {
    &&& is_value(config, CONAN_ARTIFACT_TYPE@, CONAN_ARTIFACT_TYPE_LIB@)
    &&& config.contains_key(CONAN_USER_PROPERTY@)
    &&& config.contains_key(CONAN_CHANNEL_PROPERTY@)
    &&& config.contains_key(CONAN_ARTIFACT_NAME@)
}

/// True when the artifact type is one of those that exist.
pub open spec fn artifact_type_known(config: Map<Seq<char>, Seq<char>>) -> bool {
    is_value(config, CONAN_ARTIFACT_TYPE@, CONAN_ARTIFACT_TYPE_BIN@) || is_value(
        config,
        CONAN_ARTIFACT_TYPE@,
        CONAN_ARTIFACT_TYPE_LIB@,
    )
}

/// The configurations that the plugin accepts: one that brings its own
/// conanfile, or one that has a version and produces either a binary or a
/// fully described library.
pub open spec fn valid_config(config: Map<Seq<char>, Seq<char>>) -> bool {
    config.contains_key(CONAN_CONANFILE_PATH_PROPERTY@) || (config.contains_key(
        CONAN_VERSION_PROPERTY@,
    ) && artifact_type_known(config) && (library_described(config) || is_value(
        config,
        CONAN_ARTIFACT_TYPE@,
        CONAN_ARTIFACT_TYPE_BIN@,
    )))
}

/// What is said of a configuration that is not accepted: the first thing
/// found missing, looking at the version, then at the artifact type, then
/// at the description of a library.
pub open spec fn complaint(config: Map<Seq<char>, Seq<char>>) -> Seq<char> {
    if !config.contains_key(CONAN_VERSION_PROPERTY@) {
        CONAN_VERSION_PROPERTY@ + " must be defined."@
    } else if !artifact_type_known(config) {
        CONAN_ARTIFACT_TYPE@ + " is not defined as "@ + CONAN_ARTIFACT_TYPE_LIB@ + "."@
    } else {
        CONAN_ARTIFACT_TYPE@ + " was defined as \""@ + CONAN_ARTIFACT_TYPE_LIB@
            + "\" but all of "@ + CONAN_USER_PROPERTY@ + ", "@ + CONAN_CHANNEL_PROPERTY@
            + ", and "@ + CONAN_ARTIFACT_NAME@ + " were not also defined."@
    }
}

/// The name of the build task of the module `module`.
pub open spec fn build_task_of(module: Seq<char>) -> Seq<char> {
    module + ":build"@
}

/// The name of the clean task of the module `module`.
pub open spec fn clean_task_of(module: Seq<char>) -> Seq<char> {
    module + ":clean"@
}

/// The name of the build task of the module `module`.
pub fn build_task_name(module: &str) -> (name: String)
    ensures
        name@ == build_task_of(module@),
{
    module.to_owned().concat(":build")
}

/// The name of the clean task of the module `module`.
pub fn clean_task_name(module: &str) -> (name: String)
    ensures
        name@ == clean_task_of(module@),
{
    module.to_owned().concat(":clean")
}

/// True when `config` binds `key` to `value`.
pub fn has_value(config: &StringMap<String>, key: &str, value: &str) -> (b: bool)
    requires
        config.wf(),
    ensures
        b == is_value(texts(*config), key@, value@),
{
    match config.get(key) {
        Some(v) => {
            let wanted = value.to_owned();
            *v == wanted
        },
        None => false,
    }
}

/// The value that the module's configuration binds to `key`.
pub fn get_required_config(m: &Module, key: &str) -> (value: Result<String, BuildError>)
    requires
        m.wf(),
    ensures
        value.is_ok() == texts(m.spec_config()).contains_key(key@),
        value matches Ok(v) ==> v@ == texts(m.spec_config())[key@],
        value matches Err(e) ==> e matches BuildError::ConfigError(msg) && msg@ == key@
            + " is not defined."@,
{
    match m.config().get(key) {
        Some(value) => Ok(value.clone()),
        None => Err(BuildError::ConfigError(key.to_owned().concat(" is not defined."))),
    }
}

/// The artifact type of a module: the one it names, or a library where it
/// names none and brings its own conanfile.
pub open spec fn artifact_type_of(config: Map<Seq<char>, Seq<char>>) -> Option<Seq<char>> {
    if config.contains_key(CONAN_ARTIFACT_TYPE@) {
        Some(config[CONAN_ARTIFACT_TYPE@])
    } else if config.contains_key(CONAN_CONANFILE_PATH_PROPERTY@) {
        Some(CONAN_ARTIFACT_TYPE_LIB@)
    } else {
        None
    }
}

/// The artifact type of the module, or an error where it names none and
/// brings no conanfile.
pub fn get_artifact_type(m: &Module) -> (kind: Result<String, BuildError>)
    requires
        m.wf(),
    ensures
        kind.is_ok() == artifact_type_of(texts(m.spec_config())).is_some(),
        kind matches Ok(v) ==> Some(v@) == artifact_type_of(texts(m.spec_config())),
        kind matches Err(e) ==> e matches BuildError::ConfigError(msg) && msg@
            == CONAN_ARTIFACT_TYPE@ + " must be defined."@,
{
    if let Some(v) = m.config().get(CONAN_ARTIFACT_TYPE) {
        Ok(v.clone())
    } else if m.config().contains_key(CONAN_CONANFILE_PATH_PROPERTY) {
        Ok(CONAN_ARTIFACT_TYPE_LIB.to_owned())
    } else {
        Err(BuildError::ConfigError(CONAN_ARTIFACT_TYPE.to_owned().concat(" must be defined.")))
    }
}

/// Registers `task` under `name` and makes the task `parent` depend on it.
/// Where there is no task `parent`, the task is registered and the call
/// fails.
pub fn hang_under(context: &mut Context, parent: &str, name: &str, task: Box<dyn Task>) -> (done:
    Result<(), Error>)
    requires
        old(context).wf(),
    ensures
        final(context).wf(),
        final(context).module_items() == old(context).module_items(),
        final(context).module_deps() == old(context).module_deps(),
        final(context).module_names() == old(context).module_names(),
        final(context).task_items().dom() == old(context).task_items().dom().insert(name@),
        final(context).task_deps() == with_edge(
            with_node(old(context).task_deps(), name@),
            parent@,
            name@,
        ),
        done.is_ok() == with_node(old(context).task_deps(), name@).contains_key(parent@),
        done matches Err(e) ==> e.is_no_such_task(parent@),
{
    context.add_task(name, task);
    proof {
        old(context).lemma_wf();
        context.lemma_wf();
        assert(context.task_items().dom() =~= old(context).task_items().dom().insert(name@));
    }
    match context.task_mut(parent) {
        Ok(mut handle) => handle.depends_on(name),
        Err(e) => Err(e),
    }
}

/// True when the plugin claims the module.
pub open spec fn claims(module: Module) -> bool {
    module.spec_types()@.contains(CONAN_MODULE_TYPE@)
}

/// True when the plugin claims the module and does not accept its
/// configuration.
pub open spec fn rejects(module: Module) -> bool {
    claims(module) && !valid_config(texts(module.spec_config()))
}

/// The names of the modules among the first `upto` of `modules` that the
/// plugin claims, in the order of their registration.
pub open spec fn claimed(modules: StringMap<Box<Module>>, upto: int) -> Seq<Seq<char>>
    decreases upto,
{
    if upto <= 0 {
        Seq::empty()
    } else {
        let before = claimed(modules, upto - 1);
        if claims(*modules.values()[upto - 1]) {
            before.push(modules.keys()[upto - 1])
        } else {
            before
        }
    }
}

/// True when the module at position `i` is the first that the plugin
/// rejects, and `e` says why.
pub open spec fn first_rejected(modules: StringMap<Box<Module>>, i: int, e: BuildError) -> bool {
    &&& 0 <= i < modules.values().len()
    &&& rejects(*modules.values()[i])
    &&& forall|j: int| 0 <= j < i ==> !rejects(*#[trigger] modules.values()[j])
    &&& e matches BuildError::ConfigError(msg) && msg@ == complaint(
        texts(modules.values()[i].spec_config()),
    )
}

/// True when `e` says why the first module that the plugin rejects is
/// rejected.
pub open spec fn reports_first_rejected(modules: StringMap<Box<Module>>, e: BuildError) -> bool {
    exists|i: int| #[trigger] first_rejected(modules, i, e)
}

/// The task graph `tasks` after the build task of `module` was made to
/// depend on the build tasks of the first `upto` of `deps` that are among
/// `handled`.
pub open spec fn linked_to(
    tasks: Graph,
    module: Seq<char>,
    deps: Seq<Seq<char>>,
    handled: Set<Seq<char>>,
    upto: int,
) -> Graph
    decreases upto,
{
    if upto <= 0 {
        tasks
    } else {
        let before = linked_to(tasks, module, deps, handled, upto - 1);
        if handled.contains(deps[upto - 1]) {
            with_edge(before, build_task_of(module), build_task_of(deps[upto - 1]))
        } else {
            before
        }
    }
}

/// The task graph `tasks` after the build tasks of the first `upto` of
/// `handled` were made to depend on the build tasks of the modules that
/// they depend on in `modules` and that are among `handled` too.
pub open spec fn linked(tasks: Graph, modules: Graph, handled: Seq<Seq<char>>, upto: int) -> Graph
    decreases upto,
{
    if upto <= 0 {
        tasks
    } else {
        let before = linked(tasks, modules, handled, upto - 1);
        let module = handled[upto - 1];
        linked_to(before, module, modules[module], handled.to_set(), modules[module].len() as int)
    }
}

/// True when the build tasks of `handled` can be linked: each of `handled`
/// is a module, and where one of them depends on another both have their
/// build tasks.
pub open spec fn linkable(tasks: Graph, modules: Graph, handled: Seq<Seq<char>>) -> bool {
    forall|i: int|
        0 <= i < handled.len() ==> modules.contains_key(#[trigger] handled[i]) && forall|j: int|
            0 <= j < modules[handled[i]].len() && handled.contains(
                #[trigger] modules[handled[i]][j],
            ) ==> can_depend(
                tasks,
                build_task_of(handled[i]),
                build_task_of(modules[handled[i]][j]),
            )
}

/// True when the build tasks of the module at position `i` of `handled`
/// cannot be linked, and `e` says why: the module is no module, or it
/// depends on the module at position `j` of its dependencies, which is among
/// `handled`, and the build task of the one or of the other is missing.
/// Before this, all could be linked, and `after` is `tasks` with all that
/// linked.
pub open spec fn first_unlinkable(
    tasks: Graph,
    modules: Graph,
    handled: Seq<Seq<char>>,
    i: int,
    j: int,
    e: Error,
    after: Graph,
) -> bool {
    &&& 0 <= i < handled.len()
    &&& linkable(tasks, modules, handled.take(i))
    &&& if !modules.contains_key(handled[i]) {
        e.is_item_not_found(handled[i]) && after == linked(tasks, modules, handled, i)
    } else {
        let deps = modules[handled[i]];
        &&& after == linked_to(
            linked(tasks, modules, handled, i),
            handled[i],
            deps,
            handled.to_set(),
            j,
        )
        &&& 0 <= j < deps.len()
        &&& handled.contains(deps[j])
        &&& forall|b: int|
            0 <= b < j && handled.contains(#[trigger] deps[b]) ==> can_depend(
                tasks,
                build_task_of(handled[i]),
                build_task_of(deps[b]),
            )
        &&& if !tasks.contains_key(build_task_of(handled[i])) {
            e.is_no_such_task(build_task_of(handled[i]))
        } else {
            !tasks.contains_key(build_task_of(deps[j])) && e.is_item_not_found(
                build_task_of(deps[j]),
            )
        }
    }
}

/// True when `e` says why the build tasks of `handled` cannot be linked,
/// at the first place where they cannot, and `after` is `tasks` with all
/// linked that comes before that place.
pub open spec fn reports_unlinkable(
    tasks: Graph,
    modules: Graph,
    handled: Seq<Seq<char>>,
    e: Error,
    after: Graph,
) -> bool {
    exists|i: int, j: int| #[trigger] first_unlinkable(tasks, modules, handled, i, j, e, after)
}

/// Linking leaves the names of the tasks as they are.
pub proof fn lemma_linked_to_keeps_names(
    tasks: Graph,
    module: Seq<char>,
    deps: Seq<Seq<char>>,
    handled: Set<Seq<char>>,
    upto: int,
)
    ensures
        linked_to(tasks, module, deps, handled, upto).dom() == tasks.dom(),
    decreases upto,
{
    if upto > 0 {
        lemma_linked_to_keeps_names(tasks, module, deps, handled, upto - 1);
        let before = linked_to(tasks, module, deps, handled, upto - 1);
        let after = linked_to(tasks, module, deps, handled, upto);
        assert(after.dom() =~= before.dom());
    }
}

/// Linking leaves the names of the tasks as they are.
pub proof fn lemma_linked_keeps_names(
    tasks: Graph,
    modules: Graph,
    handled: Seq<Seq<char>>,
    upto: int,
)
    ensures
        linked(tasks, modules, handled, upto).dom() == tasks.dom(),
    decreases upto,
{
    if upto > 0 {
        lemma_linked_keeps_names(tasks, modules, handled, upto - 1);
        let before = linked(tasks, modules, handled, upto - 1);
        let module = handled[upto - 1];
        lemma_linked_to_keeps_names(
            before,
            module,
            modules[module],
            handled.to_set(),
            modules[module].len() as int,
        );
    }
}

/// True when `task` is the build task of the module `module` and `dep` the
/// build task of the dependency at position `k` of `deps`, which is among
/// `handled`.
pub open spec fn mirrors_at(
    module: Seq<char>,
    deps: Seq<Seq<char>>,
    handled: Set<Seq<char>>,
    k: int,
    task: Seq<char>,
    dep: Seq<char>,
) -> bool {
    &&& 0 <= k < deps.len()
    &&& handled.contains(deps[k])
    &&& task == build_task_of(module)
    &&& dep == build_task_of(deps[k])
}

/// True when the edge from `task` to `dep` mirrors a dependency between
/// two of the first `upto` modules of `handled`: `task` is the build task
/// of one of them, and `dep` that of a module of `handled` that it depends
/// on.
pub open spec fn mirrors(
    modules: Graph,
    handled: Seq<Seq<char>>,
    upto: int,
    task: Seq<char>,
    dep: Seq<char>,
) -> bool {
    exists|a: int, k: int|
        0 <= a < upto && a < handled.len() && #[trigger] mirrors_at(
            handled[a],
            modules[handled[a]],
            handled.to_set(),
            k,
            task,
            dep,
        )
}

/// After linking one module, a task depends on what it depended on before
/// and on what mirrors one of the module's first `upto` dependencies.
pub proof fn law_linked_to_mirrors(
    tasks: Graph,
    module: Seq<char>,
    deps: Seq<Seq<char>>,
    handled: Set<Seq<char>>,
    upto: int,
    task: Seq<char>,
    dep: Seq<char>,
)
    requires
        0 <= upto <= deps.len(),
        forall|k: int|
            0 <= k < upto && handled.contains(#[trigger] deps[k]) ==> can_depend(
                tasks,
                build_task_of(module),
                build_task_of(deps[k]),
            ),
    ensures
        dependency_set(linked_to(tasks, module, deps, handled, upto), task).contains(dep)
            <==> dependency_set(tasks, task).contains(dep) || exists|k: int|
            k < upto && #[trigger] mirrors_at(module, deps, handled, k, task, dep),
    decreases upto,
{
    if upto > 0 {
        let before = linked_to(tasks, module, deps, handled, upto - 1);
        let after = linked_to(tasks, module, deps, handled, upto);
        law_linked_to_mirrors(tasks, module, deps, handled, upto - 1, task, dep);
        lemma_linked_to_keeps_names(tasks, module, deps, handled, upto - 1);
        let last = deps[upto - 1];
        if handled.contains(last) {
            law_with_edge_effect(before, build_task_of(module), build_task_of(last));
            assert(can_depend(before, build_task_of(module), build_task_of(last)));
            if task == build_task_of(module) && dep == build_task_of(last) {
                assert(mirrors_at(module, deps, handled, upto - 1, task, dep));
            }
        }
        if exists|k: int| k < upto && #[trigger] mirrors_at(module, deps, handled, k, task, dep) {
            let k = choose|k: int|
                k < upto && #[trigger] mirrors_at(module, deps, handled, k, task, dep);
            if k < upto - 1 {
                assert(dependency_set(before, task).contains(dep));
            }
        }
    }
}

/// After linking the first `upto` modules of `handled`, a task depends on
/// what it depended on before and on what mirrors a dependency between two
/// of those modules.
pub proof fn law_linked_mirrors(
    tasks: Graph,
    modules: Graph,
    handled: Seq<Seq<char>>,
    upto: int,
    task: Seq<char>,
    dep: Seq<char>,
)
    requires
        0 <= upto <= handled.len(),
        linkable(tasks, modules, handled),
    ensures
        dependency_set(linked(tasks, modules, handled, upto), task).contains(dep)
            <==> dependency_set(tasks, task).contains(dep) || mirrors(
            modules,
            handled,
            upto,
            task,
            dep,
        ),
    decreases upto,
{
    if upto > 0 {
        let before = linked(tasks, modules, handled, upto - 1);
        let module = handled[upto - 1];
        let deps = modules[module];
        law_linked_mirrors(tasks, modules, handled, upto - 1, task, dep);
        lemma_linked_keeps_names(tasks, modules, handled, upto - 1);
        assert forall|k: int|
            0 <= k < deps.len() && handled.to_set().contains(#[trigger] deps[k]) implies can_depend(
            before,
            build_task_of(module),
            build_task_of(deps[k]),
        ) by {
            assert(handled.contains(modules[handled[upto - 1]][k]));
        }
        law_linked_to_mirrors(
            before,
            module,
            deps,
            handled.to_set(),
            deps.len() as int,
            task,
            dep,
        );
        if exists|k: int|
            k < deps.len() && #[trigger] mirrors_at(module, deps, handled.to_set(), k, task, dep) {
            let k = choose|k: int|
                k < deps.len() && #[trigger] mirrors_at(module, deps, handled.to_set(), k, task, dep);
            assert(mirrors_at(
                handled[upto - 1],
                modules[handled[upto - 1]],
                handled.to_set(),
                k,
                task,
                dep,
            ));
        }
        if mirrors(modules, handled, upto, task, dep) {
            let (a, k) = choose|a: int, k: int|
                0 <= a < upto && a < handled.len() && #[trigger] mirrors_at(
                    handled[a],
                    modules[handled[a]],
                    handled.to_set(),
                    k,
                    task,
                    dep,
                );
            if a < upto - 1 {
                assert(mirrors(modules, handled, upto - 1, task, dep));
            }
        }
    }
}

/// Modules that can be linked one by one can be linked together: where
/// each of the first `upto` of `handled` is a module whose build task and
/// those of its dependencies among `handled` are there, these first modules
/// are linkable.
pub proof fn lemma_linkable_prefix(
    tasks: Graph,
    modules: Graph,
    handled: Seq<Seq<char>>,
    upto: int,
)
    requires
        0 <= upto <= handled.len(),
        forall|k: int|
            0 <= k < upto ==> modules.contains_key(#[trigger] handled[k]) && forall|j: int|
                0 <= j < modules[handled[k]].len() && handled.contains(
                    #[trigger] modules[handled[k]][j],
                ) ==> can_depend(
                    tasks,
                    build_task_of(handled[k]),
                    build_task_of(modules[handled[k]][j]),
                ),
    ensures
        linkable(tasks, modules, handled.take(upto)),
{
    let first = handled.take(upto);
    assert forall|i: int| 0 <= i < first.len() implies modules.contains_key(#[trigger] first[i])
        && forall|j: int|
        0 <= j < modules[first[i]].len() && first.contains(#[trigger] modules[first[i]][j])
            ==> can_depend(tasks, build_task_of(first[i]), build_task_of(modules[first[i]][j])) by {
        assert(first[i] == handled[i]);
        assert forall|j: int|
            0 <= j < modules[first[i]].len() && first.contains(
                #[trigger] modules[first[i]][j],
            ) implies can_depend(
            tasks,
            build_task_of(first[i]),
            build_task_of(modules[first[i]][j]),
        ) by {
            let d = modules[first[i]][j];
            let at = choose|at: int| 0 <= at < first.len() && first[at] == d;
            assert(handled[at] == d);
            assert(handled.contains(modules[handled[i]][j]));
        }
    }
}

/// Turns modules of type `conan` into build and clean tasks.
pub struct ConanPlugin {}

impl ConanPlugin {
    pub fn new() -> ConanPlugin {
        ConanPlugin {  }
    }

    /// True when the module bears the type tag of the plugin.
    pub fn can_handle(&self, module: &Module) -> (b: bool)
        ensures
            b == module.spec_types()@.contains(CONAN_MODULE_TYPE@),
    {
        module.types().contains(CONAN_MODULE_TYPE)
    }

    /// The names of the modules that the plugin claims, in the order of
    /// their registration.  Fails where the plugin rejects one of them, with
    /// what is wrong with the first such module.
    pub fn handled_modules(&self, modules: &StringMap<Box<Module>>) -> (handled: Result<
        Vec<String>,
        BuildError,
    >)
        requires
            modules.wf(),
            forall|i: int| 0 <= i < modules.values().len() ==> (#[trigger] modules.values()[i]).wf(),
        ensures
            handled.is_ok() == (forall|i: int|
                0 <= i < modules.values().len() ==> !rejects(*#[trigger] modules.values()[i])),
            handled matches Ok(names) ==> views(names@) == claimed(
                *modules,
                modules.keys().len() as int,
            ),
            handled matches Err(e) ==> reports_first_rejected(*modules, e),
    {
        let mut names: Vec<String> = Vec::new();
        let mut i: usize = 0;
        while i < modules.len()
            invariant
                modules.wf(),
                forall|k: int|
                    0 <= k < modules.values().len() ==> (#[trigger] modules.values()[k]).wf(),
                i <= modules.keys().len(),
                views(names@) == claimed(*modules, i as int),
                forall|j: int| 0 <= j < i ==> !rejects(*#[trigger] modules.values()[j]),
            decreases modules.keys().len() - i,
        {
            let module = modules.value_at(i);
            if self.can_handle(module) {
                match self.validate_config(module.config()) {
                    Ok(()) => {},
                    Err(e) => {
                        assert(first_rejected(*modules, i as int, e));
                        return Err(e);
                    },
                }
                let ghost before = views(names@);
                names.push(modules.key_at(i).clone());
                assert(views(names@) =~= before.push(modules.keys()[i as int]));
            }
            i = i + 1;
        }
        Ok(names)
    }

    /// Registers `task` as the build task of the module `module` and makes
    /// the task `build` depend on it.  Where there is no task `build`, the
    /// task is registered and the call fails.
    pub fn add_build_task(&self, context: &mut Context, module: &str, task: Box<dyn Task>) -> (done:
        Result<(), Error>)
        requires
            old(context).wf(),
        ensures
            final(context).wf(),
            final(context).module_items() == old(context).module_items(),
            final(context).module_deps() == old(context).module_deps(),
            final(context).module_names() == old(context).module_names(),
            final(context).task_items().dom() == old(context).task_items().dom().insert(
                build_task_of(module@),
            ),
            final(context).task_deps() == with_edge(
                with_node(old(context).task_deps(), build_task_of(module@)),
                CONAN_BUILD_TASK@,
                build_task_of(module@),
            ),
            done.is_ok() == with_node(old(context).task_deps(), build_task_of(module@)).contains_key(
                CONAN_BUILD_TASK@,
            ),
            done matches Err(e) ==> e.is_no_such_task(CONAN_BUILD_TASK@),
    {
        let name = build_task_name(module);
        hang_under(context, CONAN_BUILD_TASK, name.as_str(), task)
    }

    /// Registers `task` as the clean task of the module `module` and makes
    /// the task `clean` depend on it.  Where there is no task `clean`, the
    /// task is registered and the call fails.
    pub fn add_clean_task(&self, context: &mut Context, module: &str, task: Box<dyn Task>) -> (done:
        Result<(), Error>)
        requires
            old(context).wf(),
        ensures
            final(context).wf(),
            final(context).module_items() == old(context).module_items(),
            final(context).module_deps() == old(context).module_deps(),
            final(context).module_names() == old(context).module_names(),
            final(context).task_items().dom() == old(context).task_items().dom().insert(
                clean_task_of(module@),
            ),
            final(context).task_deps() == with_edge(
                with_node(old(context).task_deps(), clean_task_of(module@)),
                CONAN_CLEAN_TASK@,
                clean_task_of(module@),
            ),
            done.is_ok() == with_node(old(context).task_deps(), clean_task_of(module@)).contains_key(
                CONAN_CLEAN_TASK@,
            ),
            done matches Err(e) ==> e.is_no_such_task(CONAN_CLEAN_TASK@),
    {
        let name = clean_task_name(module);
        hang_under(context, CONAN_CLEAN_TASK, name.as_str(), task)
    }

    /// Makes the build task of each module of `handled` depend on the build
    /// tasks of the modules that it depends on and that are among `handled`
    /// too.  Stops at the first edge that cannot be declared: where one of
    /// `handled` is no module, or a build task is missing.
    pub fn link_build_tasks(&self, context: &mut Context, handled: &Vec<String>) -> (done: Result<
        (),
        Error,
    >)
        requires
            old(context).wf(),
        ensures
            final(context).wf(),
            final(context).module_items() == old(context).module_items(),
            final(context).module_deps() == old(context).module_deps(),
            final(context).module_names() == old(context).module_names(),
            final(context).task_items() == old(context).task_items(),
            final(context).task_deps().dom() == old(context).task_deps().dom(),
            done.is_ok() == linkable(
                old(context).task_deps(),
                old(context).module_deps(),
                views(handled@),
            ),
            done.is_ok() ==> final(context).task_deps() == linked(
                old(context).task_deps(),
                old(context).module_deps(),
                views(handled@),
                handled.len() as int,
            ),
            done matches Err(e) ==> reports_unlinkable(
                old(context).task_deps(),
                old(context).module_deps(),
                views(handled@),
                e,
                final(context).task_deps(),
            ),
    {
        let ghost tasks0 = context.task_deps();
        let ghost modules0 = context.module_deps();
        let ghost names = views(handled@);
        let mut i: usize = 0;
        while i < handled.len()
            invariant
                context.wf(),
                context.module_items() == old(context).module_items(),
                context.module_deps() == modules0,
                context.module_names() == old(context).module_names(),
                context.task_items() == old(context).task_items(),
                tasks0 == old(context).task_deps(),
                modules0 == old(context).module_deps(),
                names == views(handled@),
                i <= handled.len(),
                context.task_deps() == linked(tasks0, modules0, names, i as int),
                context.task_deps().dom() == tasks0.dom(),
                forall|k: int|
                    0 <= k < i ==> modules0.contains_key(#[trigger] names[k]) && forall|j: int|
                        0 <= j < modules0[names[k]].len() && names.contains(
                            #[trigger] modules0[names[k]][j],
                        ) ==> can_depend(
                            tasks0,
                            build_task_of(names[k]),
                            build_task_of(modules0[names[k]][j]),
                        ),
            decreases handled.len() - i,
        {
            let module = &handled[i];
            assert(names[i as int] == module@);
            let deps = match context.get_module_deps(module.as_str()) {
                Ok(set) => clone_strings(set.as_vec()),
                Err(e) => {
                    assert(!modules0.contains_key(names[i as int]));
                    assert(first_unlinkable(
                        tasks0,
                        modules0,
                        names,
                        i as int,
                        0,
                        e,
                        context.task_deps(),
                    )) by {
                        lemma_linkable_prefix(tasks0, modules0, names, i as int);
                    }
                    return Err(e);
                },
            };
            let ghost before = context.task_deps();
            let ghost wanted = modules0[module@];
            let mut j: usize = 0;
            while j < deps.len()
                invariant
                    context.wf(),
                    context.module_items() == old(context).module_items(),
                    context.module_deps() == modules0,
                    context.module_names() == old(context).module_names(),
                    context.task_items() == old(context).task_items(),
                    names == views(handled@),
                    tasks0 == old(context).task_deps(),
                    modules0 == old(context).module_deps(),
                    modules0.contains_key(module@),
                    i < handled.len(),
                    module@ == names[i as int],
                    views(deps@) == wanted,
                    wanted == modules0[module@],
                    before == linked(tasks0, modules0, names, i as int),
                    j <= deps.len(),
                    before.dom() == tasks0.dom(),
                    context.task_deps() == linked_to(before, module@, wanted, names.to_set(), j as int),
                    context.task_deps().dom() == tasks0.dom(),
                    forall|k: int|
                        0 <= k < i ==> modules0.contains_key(#[trigger] names[k]) && forall|j: int|
                            0 <= j < modules0[names[k]].len() && names.contains(
                                #[trigger] modules0[names[k]][j],
                            ) ==> can_depend(
                                tasks0,
                                build_task_of(names[k]),
                                build_task_of(modules0[names[k]][j]),
                            ),
                    forall|k: int|
                        0 <= k < j && names.contains(#[trigger] wanted[k]) ==> can_depend(
                            tasks0,
                            build_task_of(module@),
                            build_task_of(wanted[k]),
                        ),
                decreases deps.len() - j,
            {
                let dep = &deps[j];
                assert(wanted[j as int] == dep@);
                if position(handled, dep).is_some() {
                    let build_task = build_task_name(module.as_str());
                    let dep_task = build_task_name(dep.as_str());
                    let ghost current = context.task_deps();
                    let linked = match context.task_mut(build_task.as_str()) {
                        Ok(mut handle) => handle.depends_on(dep_task.as_str()),
                        Err(e) => Err(e),
                    };
                    match linked {
                        Ok(()) => {},
                        Err(e) => {
                            assert(names.contains(wanted[j as int]));
                            assert(!can_depend(current, build_task@, dep_task@));
                            assert(wanted.len() == deps.len());
                            assert(first_unlinkable(
                                tasks0,
                                modules0,
                                names,
                                i as int,
                                j as int,
                                e,
                                context.task_deps(),
                            )) by {
                                lemma_linkable_prefix(tasks0, modules0, names, i as int);
                            }
                            assert(!can_depend(
                                tasks0,
                                build_task_of(names[i as int]),
                                build_task_of(modules0[names[i as int]][j as int]),
                            ));
                            return Err(e);
                        },
                    }
                    proof {
                        lemma_linked_to_keeps_names(
                            before,
                            module@,
                            wanted,
                            names.to_set(),
                            j as int + 1,
                        );
                    }
                }
                j = j + 1;
            }
            i = i + 1;
        }
        Ok(())
    }

    /// Accepts the configurations of `valid_config`, and says of any other
    /// what `complaint` says.
    pub fn validate_config(&self, config: &StringMap<String>) -> (checked: Result<(), BuildError>)
        requires
            config.wf(),
        ensures
            checked.is_ok() == valid_config(texts(*config)),
            checked matches Err(e) ==> e matches BuildError::ConfigError(msg) && msg@ == complaint(
                texts(*config),
            ),
    {
        if config.contains_key(CONAN_CONANFILE_PATH_PROPERTY) {
            return Ok(());
        }
        if !config.contains_key(CONAN_VERSION_PROPERTY) {
            return Err(
                BuildError::ConfigError(CONAN_VERSION_PROPERTY.to_owned().concat(" must be defined.")),
            );
        }
        let is_bin = has_value(config, CONAN_ARTIFACT_TYPE, CONAN_ARTIFACT_TYPE_BIN);
        let is_lib = has_value(config, CONAN_ARTIFACT_TYPE, CONAN_ARTIFACT_TYPE_LIB);
        if !is_bin && !is_lib {
            return Err(
                BuildError::ConfigError(
                    CONAN_ARTIFACT_TYPE.to_owned().concat(" is not defined as ").concat(
                        CONAN_ARTIFACT_TYPE_LIB,
                    ).concat("."),
                ),
            );
        }
        let described = is_lib && config.contains_key(CONAN_USER_PROPERTY) && config.contains_key(
            CONAN_CHANNEL_PROPERTY,
        ) && config.contains_key(CONAN_ARTIFACT_NAME);
        if described || is_bin {
            return Ok(());
        }
        Err(
            BuildError::ConfigError(
                CONAN_ARTIFACT_TYPE.to_owned().concat(" was defined as \"").concat(
                    CONAN_ARTIFACT_TYPE_LIB,
                ).concat("\" but all of ").concat(CONAN_USER_PROPERTY).concat(", ").concat(
                    CONAN_CHANNEL_PROPERTY,
                ).concat(", and ").concat(CONAN_ARTIFACT_NAME).concat(" were not also defined."),
            ),
        )
    }
}

} // verus!
