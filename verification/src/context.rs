//! The modules and tasks of one build, with their dependencies.

use vstd::prelude::*;
use crate::deptree::DepTree;
use crate::error::BuildError;
use crate::error::Error;
use crate::graph::Graph;
use crate::graph::can_depend;
use crate::graph::with_edge;
use crate::graph::with_node;
use crate::module::Module;
use crate::names::StringMap;
use crate::names::StringSet;
use crate::task::Task;

verus! {

/// One registry of modules and one of tasks.  The two are separate
/// namespaces: a module and a task may bear the same name.
pub struct Context {
    modules: DepTree<Module>,
    tasks: DepTree<dyn Task>,
}

/// A task of a context, picked by name, to declare a dependency for.
pub struct TaskRef<'a> {
    pub name: String,
    pub context: &'a mut Context,
}

/// A module of a context, picked by name, to declare a dependency for.
pub struct ModuleRef<'a> {
    pub name: String,
    pub context: &'a mut Context,
}

impl Context {
    /// The dependencies among the modules.
    pub closed spec fn module_deps(&self) -> Graph {
        self.modules.deps()
    }

    /// The modules under their names.
    pub closed spec fn module_items(&self) -> Map<Seq<char>, Box<Module>> {
        self.modules.items()
    }

    /// The names of the modules, in the order of first registration.
    pub closed spec fn module_names(&self) -> Seq<Seq<char>> {
        self.modules.names()
    }

    /// The dependencies among the tasks.
    pub closed spec fn task_deps(&self) -> Graph {
        self.tasks.deps()
    }

    /// The tasks under their names.
    pub closed spec fn task_items(&self) -> Map<Seq<char>, Box<dyn Task>> {
        self.tasks.items()
    }

    /// The invariant of the context: that of its two registries.
    pub closed spec fn wf(&self) -> bool {
        &&& self.modules.wf()
        &&& self.tasks.wf()
        &&& forall|name: Seq<char>| #[trigger]
            self.modules.items().contains_key(name) ==> self.modules.items()[name].wf()
    }

    /// What the invariant means for the model.
    pub proof fn lemma_wf(&self)
        requires
            self.wf(),
        ensures
            crate::graph::well_formed(self.module_deps()),
            crate::graph::well_formed(self.task_deps()),
            self.module_items().dom() == self.module_deps().dom(),
            self.task_items().dom() == self.task_deps().dom(),
            self.module_names().no_duplicates(),
            self.module_names().to_set() == self.module_deps().dom(),
            forall|name: Seq<char>| #[trigger]
                self.module_items().contains_key(name) ==> self.module_items()[name].wf(),
    {
        self.modules.lemma_wf();
        self.tasks.lemma_wf();
    }

    /// A context without modules and tasks.
    pub fn new() -> (context: Context)
        ensures
            context.wf(),
            context.module_deps() == Map::<Seq<char>, Seq<Seq<char>>>::empty(),
            context.task_deps() == Map::<Seq<char>, Seq<Seq<char>>>::empty(),
            context.module_names() == Seq::<Seq<char>>::empty(),
    {
        Context { modules: DepTree::new(), tasks: DepTree::new() }
    }

    /// Registers a module.  One that bears a name already in use replaces
    /// the old module and starts with no dependencies.
    pub fn add_module(&mut self, name: &str, module: Module)
        requires
            old(self).wf(),
            module.wf(),
        ensures
            final(self).wf(),
            final(self).module_items() == old(self).module_items().insert(name@, Box::new(module)),
            final(self).module_deps() == with_node(old(self).module_deps(), name@),
            final(self).module_names() == if old(self).module_deps().contains_key(name@) {
                old(self).module_names()
            } else {
                old(self).module_names().push(name@)
            },
            final(self).task_items() == old(self).task_items(),
            final(self).task_deps() == old(self).task_deps(),
    {
        self.modules.insert(name, module)
    }

    /// Registers a task.  One that bears a name already in use replaces the
    /// old task and starts with no dependencies.
    pub fn add_task(&mut self, name: &str, task: Box<dyn Task>)
        requires
            old(self).wf(),
        ensures
            final(self).wf(),
            final(self).task_items() == old(self).task_items().insert(name@, task),
            final(self).task_deps() == with_node(old(self).task_deps(), name@),
            final(self).module_items() == old(self).module_items(),
            final(self).module_deps() == old(self).module_deps(),
            final(self).module_names() == old(self).module_names(),
    {
        self.tasks.insert_box(name, task)
    }

    /// The names of the modules that the module `name` depends on.  Fails
    /// when there is no such module.
    pub fn get_module_deps(&self, name: &str) -> (deps: Result<&StringSet, Error>)
        requires
            self.wf(),
        ensures
            deps.is_ok() == self.module_deps().contains_key(name@),
            deps matches Ok(set) ==> set.wf() && set.names() == self.module_deps()[name@],
            deps matches Err(e) ==> e.is_item_not_found(name@),
    {
        self.modules.get_deps(name)
    }

    /// The task `name`.  Fails when there is no such task.
    pub fn get_task(&self, name: &str) -> (task: Result<&(dyn Task + 'static), Error>)
        requires
            self.wf(),
        ensures
            task.is_ok() == self.task_deps().contains_key(name@),
            task matches Ok(t) ==> t == self.task_items()[name@],
            task matches Err(e) ==> e.is_no_such_task(name@),
    {
        proof {
            self.tasks.lemma_wf();
        }
        self.tasks.get_item(name).ok_or(Error::Build(BuildError::NoSuchTask(name.to_owned())))
    }

    /// The names of the tasks that the task `name` depends on.  Fails when
    /// there is no such task.
    pub fn get_task_deps(&self, name: &str) -> (deps: Result<&StringSet, Error>)
        requires
            self.wf(),
        ensures
            deps.is_ok() == self.task_deps().contains_key(name@),
            deps matches Ok(set) ==> set.wf() && set.names() == self.task_deps()[name@],
            deps matches Err(e) ==> e.is_item_not_found(name@),
    {
        self.tasks.get_deps(name)
    }

    /// The whole mapping from names to modules.
    pub fn modules_mut(&mut self) -> (modules: &StringMap<Box<Module>>)
        requires
            old(self).wf(),
        ensures
            modules.wf(),
            modules@ == old(self).module_items(),
            modules.keys() == old(self).module_names(),
            forall|i: int| 0 <= i < modules.values().len() ==> (#[trigger] modules.values()[i]).wf(),
            *final(self) == *old(self),
    {
        let modules = self.modules.items_mut();
        proof {
            assert forall|i: int| 0 <= i < modules.values().len() implies (
            #[trigger] modules.values()[i]).wf() by {
                modules.lemma_slot(i);
            }
        }
        modules
    }

    /// Picks the module `name`, to declare a dependency for it.
    pub fn module<'a>(&'a mut self, name: &str) -> (handle: Result<ModuleRef<'a>, Error>)
        requires
            old(self).wf(),
        ensures
            handle.is_ok() == old(self).module_deps().contains_key(name@),
            handle matches Ok(h) ==> h.name@ == name@ && *h.context == *old(self)
                && *final(h.context) == *final(self),
            handle matches Err(e) ==> e.is_no_such_module(name@) && *final(self) == *old(self),
    {
        if self.modules.get_item(name).is_none() {
            return Err(Error::Build(BuildError::NoSuchModule(name.to_owned())));
        }
        Ok(ModuleRef { name: name.to_owned(), context: self })
    }

    /// Picks the task `name`, to declare a dependency for it.
    pub fn task_mut<'a>(&'a mut self, name: &str) -> (handle: Result<TaskRef<'a>, Error>)
        requires
            old(self).wf(),
        ensures
            handle.is_ok() == old(self).task_deps().contains_key(name@),
            handle matches Ok(h) ==> h.name@ == name@ && *h.context == *old(self)
                && *final(h.context) == *final(self),
            handle matches Err(e) ==> e.is_no_such_task(name@) && *final(self) == *old(self),
    {
        if self.tasks.get_item(name).is_none() {
            return Err(Error::Build(BuildError::NoSuchTask(name.to_owned())));
        }
        Ok(TaskRef { name: name.to_owned(), context: self })
    }
}

impl<'a> TaskRef<'a> {
    /// Declares that the picked task depends on the task `name`.
    pub fn depends_on(&mut self, name: &str) -> (done: Result<(), Error>)
        requires
            old(self).context.wf(),
        ensures
            final(self).name == old(self).name,
            *final(final(self).context) == *final(old(self).context),
            final(self).context.wf(),
            final(self).context.task_items() == old(self).context.task_items(),
            final(self).context.task_deps() == with_edge(
                old(self).context.task_deps(),
                old(self).name@,
                name@,
            ),
            final(self).context.module_items() == old(self).context.module_items(),
            final(self).context.module_deps() == old(self).context.module_deps(),
            final(self).context.module_names() == old(self).context.module_names(),
            done.is_ok() == can_depend(old(self).context.task_deps(), old(self).name@, name@),
            done matches Err(e) ==> e.is_item_not_found(
                if old(self).context.task_deps().contains_key(old(self).name@) {
                    name@
                } else {
                    old(self).name@
                },
            ),
    {
        self.context.tasks.set_dependency(self.name.as_str(), name)
    }
}

impl<'a> ModuleRef<'a> {
    /// Declares that the picked module depends on the module `name`.
    pub fn depends_on(&mut self, name: &str) -> (done: Result<(), Error>)
        requires
            old(self).context.wf(),
        ensures
            final(self).name == old(self).name,
            *final(final(self).context) == *final(old(self).context),
            final(self).context.wf(),
            final(self).context.module_items() == old(self).context.module_items(),
            final(self).context.module_names() == old(self).context.module_names(),
            final(self).context.module_deps() == with_edge(
                old(self).context.module_deps(),
                old(self).name@,
                name@,
            ),
            final(self).context.task_items() == old(self).context.task_items(),
            final(self).context.task_deps() == old(self).context.task_deps(),
            done.is_ok() == can_depend(old(self).context.module_deps(), old(self).name@, name@),
            done matches Err(e) ==> e.is_item_not_found(
                if old(self).context.module_deps().contains_key(old(self).name@) {
                    name@
                } else {
                    old(self).name@
                },
            ),
    {
        self.context.modules.set_dependency(self.name.as_str(), name)
    }
}

} // verus!
