//! Runs a task of a context after the tasks it depends on.

use vstd::prelude::*;
use crate::context::Context;
use crate::error::Error;
use crate::names::StringMap;
use crate::names::StringSet;
use crate::task::Task;
use crate::traversal::Abort;
use crate::traversal::ExecutionBehavior;
use crate::traversal::Run;
use crate::traversal::Visit;
use crate::traversal::agree;
use crate::traversal::unvisited;
use crate::traversal::visit;
use crate::traversal::visit_all;
use crate::traversal::lemma_enter_decreases;
use crate::traversal::lemma_progress_decreases;
use crate::traversal::lemma_visit_all_reads_its_part;
use crate::traversal::lemma_visit_reads_its_part;
use crate::traversal::lemma_visit_all_stays_unvisited;

verus! {

/// Where a task stands in the life of one executor.
#[derive(Debug, Clone, Copy, PartialEq, Eq, Structural)]
pub enum ExecutionState {
    /// The task was not dealt with yet.
    NotExecuted,
    /// The dependencies of the task are being visited.
    Running,
    /// The task was dealt with: run, or found not to need it.
    Done,
}

/// A task of the context as one executor sees it: the task itself and
/// where it stands.
struct ExecutionItem<'ctx, T: ?Sized> {
    task: &'ctx T,
    state: ExecutionState,
}

/// Runs tasks of one context.  Each task is run at most once in the life of
/// the executor, unless it failed.
pub struct Executor<'ctx> {
    context: &'ctx Context,
    state: StringMap<ExecutionState>,
    log: Ghost<Seq<Visit>>,
}

impl<'ctx, T: ?Sized> ExecutionItem<'ctx, T> {
    spec fn spec_state(&self) -> ExecutionState {
        self.state
    }

    fn task(&self) -> (found: &'ctx T)
        ensures
            found == self.task,
    {
        self.task
    }

    fn state(&self) -> (state: ExecutionState)
        ensures
            state == self.state,
    {
        self.state
    }

    fn set_state(&mut self, state: ExecutionState)
        ensures
            final(self).state == state,
            final(self).task == old(self).task,
    {
        self.state = state
    }

    fn set_done(&mut self)
        ensures
            final(self).state == ExecutionState::Done,
            final(self).task == old(self).task,
    {
        self.state = ExecutionState::Done
    }
}

/// True when the error `e` reports the abort `abort`: the missing name, the
/// name on the cycle, or the very error with which a task failed.
pub open spec fn reports(e: Error, abort: Abort) -> bool {
    match abort {
        Abort::NotFound(name) => e.is_item_not_found(name),
        Abort::Cycle(name) => e.is_dependency_cycle(name),
        Abort::Failed(failure) => e == failure,
    }
}

/// True when `result` is what the run `run` comes to.
pub open spec fn yields(result: Result<ExecutionBehavior, Error>, run: Run) -> bool {
    match result {
        Ok(behavior) => run.result == Ok::<ExecutionBehavior, Abort>(behavior),
        Err(e) => run.result is Err && reports(e, run.result->Err_0),
    }
}

impl<'ctx> Executor<'ctx> {
    /// The context whose tasks are run.
    pub closed spec fn context(&self) -> Context {
        *self.context
    }

    /// The tasks that were dealt with.
    pub closed spec fn done(&self) -> Set<Seq<char>> {
        Set::new(
            |n: Seq<char>|
                self.state@.contains_key(n) && self.state@[n] == ExecutionState::Done,
        )
    }

    /// The tasks whose dependencies are being visited.
    pub closed spec fn active(&self) -> Set<Seq<char>> {
        Set::new(
            |n: Seq<char>|
                self.state@.contains_key(n) && self.state@[n] == ExecutionState::Running,
        )
    }

    /// The consultations of tasks that the executor made so far, in order.
    pub closed spec fn log(&self) -> Seq<Visit> {
        self.log@
    }

    /// What holds of the executor at any time.
    pub closed spec fn consistent(&self) -> bool {
        &&& self.context.wf()
        &&& self.state.wf()
        &&& forall|n: Seq<char>| #[trigger]
            self.state@.contains_key(n) ==> self.context.task_deps().contains_key(n)
        &&& forall|i: int|
            0 <= i < self.log@.len() && (#[trigger] self.log@[i]).dealt_with() ==> self.done().contains(
                self.log@[i].name,
            )
        &&& forall|i: int, j: int|
            0 <= i < j < self.log@.len() && (#[trigger] self.log@[i]).dealt_with() ==> self.log@[i].name
                != (#[trigger] self.log@[j]).name
    }

    /// The invariant of the executor between two calls of `execute`.
    pub open spec fn wf(&self) -> bool {
        self.consistent() && self.active() == Set::<Seq<char>>::empty()
    }

    /// What the invariant means for the model.
    pub proof fn lemma_consistent(&self)
        requires
            self.consistent(),
        ensures
            self.context().wf(),
            self.done().subset_of(self.context().task_deps().dom()),
            self.active().subset_of(self.context().task_deps().dom()),
            self.done().disjoint(self.active()),
    {
    }

    /// In the whole life of an executor, a task that was dealt with, run or
    /// found not to need it, is done and is never consulted again: no task
    /// is run twice unless its run failed.
    pub proof fn law_dealt_with_once(&self)
        requires
            self.consistent(),
        ensures
            forall|i: int|
                0 <= i < self.log().len() && (#[trigger] self.log()[i]).dealt_with()
                    ==> self.done().contains(self.log()[i].name),
            forall|i: int, j: int|
                0 <= i < j < self.log().len() && (#[trigger] self.log()[i]).dealt_with()
                    ==> self.log()[i].name != (#[trigger] self.log()[j]).name,
    {
    }

    /// True when the executor `self` has become `after` by the run `run`,
    /// which started at the end of the log of `self`: the context is the
    /// same, the log was only added to, the run accounts for all that was
    /// added and the log is faithful to it, the tasks that the run finished
    /// are done, and the same tasks are active.
    pub open spec fn becomes(&self, after: Executor<'ctx>, run: Run) -> bool {
        &&& after.context() == self.context()
        &&& agree(self.log(), after.log(), self.log().len())
        &&& run.faithful
        &&& run.at == after.log().len()
        &&& after.done() == self.done().union(run.finished)
        &&& after.active() == self.active()
    }

    /// The run that a call of `execute` for `task` makes, where the call
    /// turns the executor `self` into `after`: the visit of `task` with no
    /// task active, replayed against what the call added to the log.
    pub open spec fn run_to(&self, after: Executor<'ctx>, task: Seq<char>) -> Run {
        visit(
            self.context().task_deps(),
            self.done(),
            Set::empty(),
            task,
            after.log(),
            self.log().len(),
        )
    }

    /// An executor for the tasks of `ctx`, none of which is done.
    pub fn new(ctx: &'ctx Context) -> (executor: Executor<'ctx>)
        requires
            ctx.wf(),
        ensures
            executor.wf(),
            executor.context() == *ctx,
            executor.done() == Set::<Seq<char>>::empty(),
            executor.log() == Seq::<Visit>::empty(),
    {
        let executor = Executor { context: ctx, state: StringMap::new(), log: Ghost(Seq::empty()) };
        assert(executor.done() =~= Set::<Seq<char>>::empty());
        assert(executor.active() =~= Set::<Seq<char>>::empty());
        executor
    }

    /// The item of `task`, made on first use with the state `NotExecuted`.
    /// Fails when the context has no such task.
    fn get_execution(&mut self, task: &str) -> (item: Result<ExecutionItem<'ctx, dyn Task>, Error>)
        requires
            old(self).consistent(),
        ensures
            final(self).consistent(),
            final(self).context() == old(self).context(),
            final(self).log() == old(self).log(),
            final(self).done() == old(self).done(),
            final(self).active() == old(self).active(),
            item.is_ok() == old(self).context().task_deps().contains_key(task@),
            item matches Ok(i) ==> i.spec_state() == (if old(self).done().contains(task@) {
                ExecutionState::Done
            } else if old(self).active().contains(task@) {
                ExecutionState::Running
            } else {
                ExecutionState::NotExecuted
            }),
            item matches Ok(i) ==> i.task == old(self).context().task_items()[task@],
            item matches Err(e) ==> e.is_no_such_task(task@),
    {
        let found = match self.context.get_task(task) {
            Ok(t) => t,
            Err(e) => {
                return Err(e);
            },
        };
        let state = match self.state.get(task) {
            Some(s) => *s,
            None => {
                self.state.insert(task.to_owned(), ExecutionState::NotExecuted);
                assert(self.done() =~= old(self).done());
                assert(self.active() =~= old(self).active());
                ExecutionState::NotExecuted
            },
        };
        let item = ExecutionItem { task: found, state };
        assert(item.task == old(self).context().task_items()[task@]);
        Ok(item)
    }

    /// Records the state of `item` as that of `task`.
    fn put(&mut self, task: &str, item: &ExecutionItem<'ctx, dyn Task>)
        requires
            old(self).consistent(),
            old(self).context().task_deps().contains_key(task@),
            item.spec_state() != ExecutionState::Done ==> !old(self).done().contains(task@),
        ensures
            final(self).consistent(),
            final(self).context() == old(self).context(),
            final(self).log() == old(self).log(),
            final(self).done() == if item.spec_state() == ExecutionState::Done {
                old(self).done().insert(task@)
            } else {
                old(self).done().remove(task@)
            },
            final(self).active() == if item.spec_state() == ExecutionState::Running {
                old(self).active().insert(task@)
            } else {
                old(self).active().remove(task@)
            },
    {
        self.state.insert(task.to_owned(), item.state);
        assert(self.done() =~= if item.spec_state() == ExecutionState::Done {
            old(self).done().insert(task@)
        } else {
            old(self).done().remove(task@)
        });
        assert(self.active() =~= if item.spec_state() == ExecutionState::Running {
            old(self).active().insert(task@)
        } else {
            old(self).active().remove(task@)
        });
    }

    /// Visits the tasks `deps` from position `from` on, one after the
    /// other, and says whether one of the visits ran its task.  Stops at the
    /// first visit that fails.
    fn execute_all(&mut self, deps: &StringSet, from: usize) -> (result: Result<
        ExecutionBehavior,
        Error,
    >)
        requires
            old(self).consistent(),
            from <= deps.names().len(),
        ensures
            final(self).consistent(),
            old(self).becomes(
                *final(self),
                visit_all(
                    old(self).context().task_deps(),
                    old(self).done(),
                    old(self).active(),
                    deps.names().skip(from as int),
                    final(self).log(),
                    old(self).log().len(),
                ),
            ),
            yields(
                result,
                visit_all(
                    old(self).context().task_deps(),
                    old(self).done(),
                    old(self).active(),
                    deps.names().skip(from as int),
                    final(self).log(),
                    old(self).log().len(),
                ),
            ),
        decreases
                unvisited(old(self).context().task_deps(), old(self).done(), old(self).active()).len(),
                deps.names().len() - from,
    {
        let ghost g = self.context().task_deps();
        let ghost done0 = self.done();
        let ghost active0 = self.active();
        let ghost at0 = self.log().len();
        let ghost rest = deps.names().skip(from as int);
        proof {
            self.context.lemma_wf();
        }
        if from >= deps.len() {
            assert(self.done() =~= done0.union(Set::empty()));
            return Ok(ExecutionBehavior::Skipped);
        }
        assert(rest[0] == deps.names()[from as int]);
        assert(rest.drop_first() =~= deps.names().skip(from + 1));
        let first = self.execute_helper(deps.get(from).as_str());
        let ghost log1 = self.log();
        let ghost run1 = visit(g, done0, active0, rest[0], log1, at0);
        let first_behavior = match first {
            Ok(b) => b,
            Err(e) => {
                return Err(e);
            },
        };
        proof {
            lemma_progress_decreases(g, done0, active0, run1.finished);
        }
        let others = self.execute_all(deps, from + 1);
        proof {
            let log2 = self.log();
            lemma_visit_reads_its_part(g, done0, active0, rest[0], log1, log2, at0);
            let run2 = visit_all(g, done0.union(run1.finished), active0, rest.drop_first(), log2, run1.at);
            assert(self.done() =~= done0.union(run1.finished.union(run2.finished)));
        }
        match others {
            Ok(b) => Ok(
                if first_behavior == ExecutionBehavior::Executed || b == ExecutionBehavior::Executed {
                    ExecutionBehavior::Executed
                } else {
                    ExecutionBehavior::Skipped
                },
            ),
            Err(e) => Err(e),
        }
    }

    /// Visits `task`: deals with the tasks it depends on, then runs it if
    /// one of those visits ran a task or if the task itself needs it.
    fn execute_helper(&mut self, task: &str) -> (result: Result<ExecutionBehavior, Error>)
        requires
            old(self).consistent(),
        ensures
            final(self).consistent(),
            old(self).becomes(
                *final(self),
                visit(
                    old(self).context().task_deps(),
                    old(self).done(),
                    old(self).active(),
                    task@,
                    final(self).log(),
                    old(self).log().len(),
                ),
            ),
            yields(
                result,
                visit(
                    old(self).context().task_deps(),
                    old(self).done(),
                    old(self).active(),
                    task@,
                    final(self).log(),
                    old(self).log().len(),
                ),
            ),
        decreases
                unvisited(old(self).context().task_deps(), old(self).done(), old(self).active()).len(),
                0nat,
    {
        let ghost g = self.context().task_deps();
        let ghost done0 = self.done();
        let ghost active0 = self.active();
        let ghost log0 = self.log();
        let ghost at0 = self.log().len();
        proof {
            self.context.lemma_wf();
        }
        let context = self.context;
        let deps = match context.get_task_deps(task) {
            Ok(d) => d,
            Err(e) => {
                assert(self.done() =~= done0.union(Set::empty()));
                return Err(e);
            },
        };
        let mut item = match self.get_execution(task) {
            Ok(i) => i,
            Err(e) => {
                return Err(e);
            },
        };
        match item.state() {
            ExecutionState::Done => {
                assert(self.done() =~= done0.union(Set::empty()));
                return Ok(ExecutionBehavior::Skipped);
            },
            ExecutionState::Running => {
                assert(self.done() =~= done0.union(Set::empty()));
                return Err(Error::DependencyCycle { name: task.to_owned() });
            },
            ExecutionState::NotExecuted => {},
        }
        item.set_state(ExecutionState::Running);
        self.put(task, &item);
        assert(self.done() =~= done0);
        proof {
            lemma_enter_decreases(g, done0, active0, task@);
        }
        assert(deps.names().skip(0) =~= g[task@]);
        let below = self.execute_all(deps, 0);
        let ghost log1 = self.log();
        let ghost inner = active0.insert(task@);
        let ghost run1 = visit_all(g, done0, inner, g[task@], log1, at0);
        proof {
            lemma_visit_all_stays_unvisited(g, done0, inner, g[task@], log1, at0);
            assert(!run1.finished.contains(task@));
            assert(!self.done().contains(task@));
        }
        let dep_behavior = match below {
            Ok(b) => b,
            Err(e) => {
                item.set_state(ExecutionState::NotExecuted);
                self.put(task, &item);
                assert(self.done() =~= done0.union(run1.finished));
                assert(self.active() =~= active0);
                return Err(e);
            },
        };
        let consulted = item.task();
        assert(consulted == self.context().task_items()[task@]);
        let stale = consulted.needs_execution();
        let run = dep_behavior == ExecutionBehavior::Executed || stale;
        let ghost outcome: Option<Result<(), Error>> = None;
        if run {
            let ran = consulted.execute();
            proof {
                outcome = Some(ran);
            }
            if let Err(e) = ran {
                proof {
                    self.log = Ghost(self.log@.push(Visit { name: task@, stale, outcome }));
                    lemma_visit_all_reads_its_part(g, done0, inner, g[task@], log1, self.log(), at0);
                }
                item.set_state(ExecutionState::NotExecuted);
                self.put(task, &item);
                assert(self.done() =~= done0.union(run1.finished.union(Set::empty())));
                assert(self.active() =~= active0);
                return Err(e);
            }
        }
        assert(forall|i: int|
            0 <= i < self.log().len() && (#[trigger] self.log()[i]).dealt_with() ==> self.log()[i].name
                != task@);
        item.set_done();
        self.put(task, &item);
        proof {
            self.log = Ghost(self.log@.push(Visit { name: task@, stale, outcome }));
            lemma_visit_all_reads_its_part(g, done0, inner, g[task@], log1, self.log(), at0);
        }
        assert(self.done() =~= done0.union(run1.finished.union(Set::empty().insert(task@))));
        assert(self.active() =~= active0);
        Ok(
            if run {
                ExecutionBehavior::Executed
            } else {
                ExecutionBehavior::Skipped
            },
        )
    }

    /// Runs `task` after the tasks it depends on.
    ///
    /// Each task that is reached and not yet done has its dependencies
    /// visited first, in the order of their declaration.  It is then asked
    /// whether it needs execution, and is run if it does or if one of those
    /// visits ran a task.  A task that is done is not consulted again.  The
    /// first failure ends the call and is returned as it is: a name that is
    /// no task, a task that fails, or a dependency cycle.
    pub fn execute(&mut self, task: &str) -> (result: Result<(), Error>)
        requires
            old(self).wf(),
        ensures
            final(self).wf(),
            old(self).becomes(*final(self), old(self).run_to(*final(self), task@)),
            match result {
                Ok(()) => old(self).run_to(*final(self), task@).result is Ok,
                Err(e) => old(self).run_to(*final(self), task@).result is Err && reports(
                    e,
                    old(self).run_to(*final(self), task@).result->Err_0,
                ),
            },
    {
        match self.execute_helper(task) {
            Ok(_) => Ok(()),
            Err(e) => Err(e),
        }
    }
}

} // verus!
