//! The description of one build unit.

use vstd::prelude::*;
use std::path::PathBuf;
use crate::names::StringMap;
use crate::names::StringSet;

verus! {

/// `std::path::PathBuf`, carried through the engine without being looked
/// into.
#[verifier::external_type_specification]
#[verifier::external_body]
pub struct ExPathBuf(PathBuf);

/// A build unit: where it lives, where it is built, which plugins may claim
/// it, and its configuration.  Dependencies between modules are kept by the
/// registry, not here.
pub struct Module {
    name: String,
    module_dir: PathBuf,
    build_dir: PathBuf,
    types: StringSet,
    config: StringMap<String>,
}

impl Module {
    /// The name of the module.
    pub closed spec fn spec_name(&self) -> Seq<char> {
        self.name@
    }

    /// The directory of the module.
    pub closed spec fn spec_module_dir(&self) -> PathBuf {
        self.module_dir
    }

    /// The directory in which the module is built.
    pub closed spec fn spec_build_dir(&self) -> PathBuf {
        self.build_dir
    }

    /// The type tags of the module.
    pub closed spec fn spec_types(&self) -> StringSet {
        self.types
    }

    /// The configuration of the module.
    pub closed spec fn spec_config(&self) -> StringMap<String> {
        self.config
    }

    /// The invariant of a module: those of its type tags and of its
    /// configuration.
    pub open spec fn wf(&self) -> bool {
        self.spec_types().wf() && self.spec_config().wf()
    }

    pub fn new(
        name: &str,
        module_dir: PathBuf,
        build_dir: PathBuf,
        types: StringSet,
        config: StringMap<String>,
    ) -> (module: Module)
        requires
            types.wf(),
            config.wf(),
        ensures
            module.wf(),
            module.spec_name() == name@,
            module.spec_module_dir() == module_dir,
            module.spec_build_dir() == build_dir,
            module.spec_types() == types,
            module.spec_config() == config,
    {
        Module { name: name.to_owned(), module_dir, build_dir, types, config }
    }

    pub fn name(&self) -> (name: &String)
        ensures
            name@ == self.spec_name(),
    {
        &self.name
    }

    pub fn module_dir(&self) -> (dir: &PathBuf)
        ensures
            *dir == self.spec_module_dir(),
    {
        &self.module_dir
    }

    pub fn build_dir(&self) -> (dir: &PathBuf)
        ensures
            *dir == self.spec_build_dir(),
    {
        &self.build_dir
    }

    pub fn types(&self) -> (types: &StringSet)
        ensures
            *types == self.spec_types(),
    {
        &self.types
    }

    pub fn config(&self) -> (config: &StringMap<String>)
        ensures
            *config == self.spec_config(),
    {
        &self.config
    }
}

} // verus!
