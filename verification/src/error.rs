//! Error values of the engine.

use vstd::prelude::*;
use vstd::string::*;

verus! {

/// What can go wrong while a build is configured or run.
#[derive(Debug, Clone, PartialEq, Eq)]
pub enum BuildError {
    ConfigError(String),
    ExecutionError(String),
    IOError(String),
    NoSuchModule(String),
    NoSuchTask(String),
}

impl BuildError {
    /// The message carried by the error, whatever its variant.
    pub open spec fn message(&self) -> Seq<char> {
        match self {
            BuildError::ConfigError(msg) => msg@,
            BuildError::ExecutionError(msg) => msg@,
            BuildError::IOError(msg) => msg@,
            BuildError::NoSuchModule(msg) => msg@,
            BuildError::NoSuchTask(msg) => msg@,
        }
    }

    /// The name of the variant, as it is printed.
    pub open spec fn label(&self) -> Seq<char> {
        match self {
            BuildError::ConfigError(_) => "ConfigError"@,
            BuildError::ExecutionError(_) => "ExecutionError"@,
            BuildError::IOError(_) => "IOError"@,
            BuildError::NoSuchModule(_) => "NoSuchModule"@,
            BuildError::NoSuchTask(_) => "NoSuchTask"@,
        }
    }

    /// The printed form: the variant's name, a colon and a space, the message.
    pub open spec fn text(&self) -> Seq<char> {
        self.label() + ": "@ + self.message()
    }

    /// The message carried by the error.
    pub fn get_message(&self) -> (msg: &String)
        ensures
            msg@ == self.message(),
    {
        match self {
            BuildError::ConfigError(msg) => msg,
            BuildError::ExecutionError(msg) => msg,
            BuildError::IOError(msg) => msg,
            BuildError::NoSuchModule(msg) => msg,
            BuildError::NoSuchTask(msg) => msg,
        }
    }

    /// Renders the error as `<variant>: <message>`.
    pub fn to_string(&self) -> (s: String)
        ensures
            s@ == self.text(),
    {
        let label = match self {
            BuildError::ConfigError(_) => "ConfigError",
            BuildError::ExecutionError(_) => "ExecutionError",
            BuildError::IOError(_) => "IOError",
            BuildError::NoSuchModule(_) => "NoSuchModule",
            BuildError::NoSuchTask(_) => "NoSuchTask",
        };
        label.to_owned().concat(": ").concat(self.get_message().as_str())
    }
}

/// The error type of every fallible operation of the engine.
#[derive(Debug, Clone, PartialEq, Eq)]
pub enum Error {
    /// A registry was asked about a name that was never inserted.
    ItemNotFound { name: String },
    /// A task was reached again while its own dependencies were still being
    /// visited: the task graph has a cycle through it.
    DependencyCycle { name: String },
    /// An error of the build itself, raised at the context boundary or by a
    /// task.
    Build(BuildError),
}

impl Error {
    /// The printed form of the error.
    pub open spec fn text(&self) -> Seq<char> {
        match self {
            Error::ItemNotFound { name } => "dependency not found: "@ + name@,
            Error::DependencyCycle { name } => "dependency cycle through: "@ + name@,
            Error::Build(e) => e.text(),
        }
    }

    /// True of the not-found error of a registry that names `name`.
    pub open spec fn is_item_not_found(&self, name: Seq<char>) -> bool {
        self matches Error::ItemNotFound { name: n } && n@ == name
    }

    /// True of the cycle error that names `name`.
    pub open spec fn is_dependency_cycle(&self, name: Seq<char>) -> bool {
        self matches Error::DependencyCycle { name: n } && n@ == name
    }

    /// True of the context's error for a module that does not exist.
    pub open spec fn is_no_such_module(&self, name: Seq<char>) -> bool {
        self matches Error::Build(BuildError::NoSuchModule(n)) && n@ == name
    }

    /// True of the context's error for a task that does not exist.
    pub open spec fn is_no_such_task(&self, name: Seq<char>) -> bool {
        self matches Error::Build(BuildError::NoSuchTask(n)) && n@ == name
    }

    /// Renders the error as a line of text.
    pub fn to_string(&self) -> (s: String)
        ensures
            s@ == self.text(),
    {
        match self {
            Error::ItemNotFound { name } => "dependency not found: ".to_owned().concat(
                name.as_str(),
            ),
            Error::DependencyCycle { name } => "dependency cycle through: ".to_owned().concat(
                name.as_str(),
            ),
            Error::Build(e) => e.to_string(),
        }
    }
}

} // verus!
