//! The mathematical model of one run of the executor.
//!
//! What a run does depends on what the tasks answer.  The model therefore
//! replays a run against a log: the sequence of visits that consulted a
//! task, each with the task's answers.  `visit` says, for a graph, the tasks
//! done before, a root and a log, which tasks the run finishes, how much of
//! the log it accounts for, how it ends, and whether the log records the
//! consultations that the run prescribes, no others and in that order.

use vstd::prelude::*;
use vstd::set_lib::*;
use crate::error::Error;
use crate::graph::Graph;
use crate::graph::well_formed;

verus! {

/// What visiting a task amounted to.
#[derive(Debug, Clone, Copy, PartialEq, Eq, Structural)]
pub enum ExecutionBehavior {
    /// The task was not run by this visit.
    Skipped,
    /// The task was run by this visit.
    Executed,
}

/// One consultation of a task: the visit that found it not yet executed.
pub struct Visit {
    /// The name of the task.
    pub name: Seq<char>,
    /// What the task answered when asked whether it needs execution.
    pub stale: bool,
    /// What running the task returned, if it was run.
    pub outcome: Option<Result<(), Error>>,
}

impl Visit {
    /// True when the visit dealt with its task: the task was run with
    /// success, or found not to need a run.
    pub open spec fn dealt_with(&self) -> bool {
        !(self.outcome matches Some(Err(_)))
    }
}

/// Why a run ended before its root was dealt with.
pub enum Abort {
    /// The name is not a task of the context.
    NotFound(Seq<char>),
    /// The task was reached again while its dependencies were being visited.
    Cycle(Seq<char>),
    /// A task was run and failed with this error.
    Failed(Error),
}

/// What a run comes to.
pub struct Run {
    /// The tasks that the run finished: consulted, run if need be, and not
    /// failed.
    pub finished: Set<Seq<char>>,
    /// The position in the log behind the last visit of the run.
    pub at: nat,
    /// How the run ended.
    pub result: Result<ExecutionBehavior, Abort>,
    /// Whether the log holds, at the positions the run went through, the
    /// visits that the run makes.
    pub faithful: bool,
}

/// The tasks that were neither finished nor entered yet.
pub open spec fn unvisited(g: Graph, done: Set<Seq<char>>, active: Set<Seq<char>>) -> Set<
    Seq<char>,
> {
    g.dom().difference(done).difference(active)
}

/// `Executed` if either is.
pub open spec fn either(a: ExecutionBehavior, b: ExecutionBehavior) -> ExecutionBehavior {
    if a == ExecutionBehavior::Executed || b == ExecutionBehavior::Executed {
        ExecutionBehavior::Executed
    } else {
        ExecutionBehavior::Skipped
    }
}

/// Whether a task that was found not yet executed is run: when one of its
/// dependencies was run by the visit made for it, or when the task
/// itself says that it needs execution.
pub open spec fn must_run(dep_behavior: ExecutionBehavior, stale: bool) -> bool {
    dep_behavior == ExecutionBehavior::Executed || stale
}

/// The visit of a task whose dependencies have been visited with the
/// combined behavior `dep_behavior`: the log's next record is the task's,
/// and the task is run exactly when `must_run` says so.
pub open spec fn settle(
    name: Seq<char>,
    dep_behavior: ExecutionBehavior,
    log: Seq<Visit>,
    at: nat,
) -> Run {
    let record = log[at as int];
    let run = must_run(dep_behavior, record.stale);
    let recorded = at < log.len() && record.name == name && (record.outcome is Some) == run;
    match record.outcome {
        Some(Err(e)) => if run {
            Run { finished: Set::empty(), at: at + 1, result: Err(Abort::Failed(e)), faithful: recorded }
        } else {
            Run {
                finished: Set::empty().insert(name),
                at: at + 1,
                result: Ok(ExecutionBehavior::Skipped),
                faithful: recorded,
            }
        },
        _ => Run {
            finished: Set::empty().insert(name),
            at: at + 1,
            result: Ok(
                if run {
                    ExecutionBehavior::Executed
                } else {
                    ExecutionBehavior::Skipped
                },
            ),
            faithful: recorded,
        },
    }
}

/// A run followed by another.
pub open spec fn then(first: Run, second: Run) -> Run {
    Run {
        finished: first.finished.union(second.finished),
        at: second.at,
        result: match (first.result, second.result) {
            (Ok(a), Ok(b)) => Ok(either(a, b)),
            (Ok(_), Err(e)) => Err(e),
            (Err(e), _) => Err(e),
        },
        faithful: first.faithful && second.faithful,
    }
}

/// The run that does nothing.
pub open spec fn idle(at: nat) -> Run {
    Run { finished: Set::empty(), at, result: Ok(ExecutionBehavior::Skipped), faithful: true }
}

/// The run that ends at once with `abort`.
pub open spec fn halt(at: nat, abort: Abort) -> Run {
    Run { finished: Set::empty(), at, result: Err(abort), faithful: true }
}

/// The visit of the task `name`, with `done` the tasks finished before and
/// `active` the tasks whose dependencies are being visited, replayed
/// against `log` from position `at`.
///
/// A name that is no task ends the run.  A task that is done is skipped
/// without being consulted.  A task that is active closes a cycle, which
/// ends the run.  Else the task's dependencies are visited in the order of
/// their declaration, and if none of these visits ends the run the task is
/// settled.
pub open spec fn visit(
    g: Graph,
    done: Set<Seq<char>>,
    active: Set<Seq<char>>,
    name: Seq<char>,
    log: Seq<Visit>,
    at: nat,
) -> Run
    decreases unvisited(g, done, active).len(), 0nat,
    when g.dom().finite()
{
    if !g.contains_key(name) {
        halt(at, Abort::NotFound(name))
    } else if done.contains(name) {
        idle(at)
    } else if active.contains(name) {
        halt(at, Abort::Cycle(name))
    } else {
        proof {
            lemma_enter_decreases(g, done, active, name);
        }
        let below = visit_all(g, done, active.insert(name), g[name], log, at);
        match below.result {
            Err(_) => below,
            Ok(dep_behavior) => then(
                Run { result: Ok(ExecutionBehavior::Skipped), ..below },
                settle(name, dep_behavior, log, below.at),
            ),
        }
    }
}

/// The visits of the tasks `deps`, one after the other, up to the first
/// that ends the run.
pub open spec fn visit_all(
    g: Graph,
    done: Set<Seq<char>>,
    active: Set<Seq<char>>,
    deps: Seq<Seq<char>>,
    log: Seq<Visit>,
    at: nat,
) -> Run
    decreases unvisited(g, done, active).len(), deps.len(),
    when g.dom().finite()
{
    if deps.len() == 0 {
        idle(at)
    } else {
        let first = visit(g, done, active, deps[0], log, at);
        match first.result {
            Err(_) => first,
            Ok(_) => {
                proof {
                    lemma_progress_decreases(g, done, active, first.finished);
                }
                then(
                    first,
                    visit_all(
                        g,
                        done.union(first.finished),
                        active,
                        deps.drop_first(),
                        log,
                        first.at,
                    ),
                )
            },
        }
    }
}

/// Entering a task that was unvisited leaves fewer unvisited tasks.
pub proof fn lemma_enter_decreases(
    g: Graph,
    done: Set<Seq<char>>,
    active: Set<Seq<char>>,
    name: Seq<char>,
)
    requires
        g.dom().finite(),
        g.contains_key(name),
        !done.contains(name),
        !active.contains(name),
    ensures
        unvisited(g, done, active.insert(name)).len() < unvisited(g, done, active).len(),
{
    let before = unvisited(g, done, active);
    lemma_len_subset(before, g.dom());
    assert(unvisited(g, done, active.insert(name)) =~= before.remove(name));
    assert(before.contains(name));
    vstd::set::axiom_set_remove_len(before, name);
}

/// Finishing tasks leaves no more unvisited tasks than there were.
pub proof fn lemma_progress_decreases(
    g: Graph,
    done: Set<Seq<char>>,
    active: Set<Seq<char>>,
    finished: Set<Seq<char>>,
)
    requires
        g.dom().finite(),
    ensures
        unvisited(g, done.union(finished), active).len() <= unvisited(g, done, active).len(),
{
    let before = unvisited(g, done, active);
    lemma_len_subset(before, g.dom());
    lemma_len_subset(unvisited(g, done.union(finished), active), before);
}

/// The two logs hold the same records below position `upto`.
pub open spec fn agree(log: Seq<Visit>, other: Seq<Visit>, upto: nat) -> bool {
    &&& upto <= log.len()
    &&& upto <= other.len()
    &&& forall|i: int| 0 <= i < upto ==> log[i] == other[i]
}

/// A visit never moves backwards in the log.
pub proof fn lemma_visit_advances(
    g: Graph,
    done: Set<Seq<char>>,
    active: Set<Seq<char>>,
    name: Seq<char>,
    log: Seq<Visit>,
    at: nat,
)
    requires
        g.dom().finite(),
    ensures
        visit(g, done, active, name, log, at).at >= at,
    decreases unvisited(g, done, active).len(), 0nat,
{
    if g.contains_key(name) && !done.contains(name) && !active.contains(name) {
        lemma_enter_decreases(g, done, active, name);
        lemma_visit_all_advances(g, done, active.insert(name), g[name], log, at);
    }
}

/// A sequence of visits never moves backwards in the log.
pub proof fn lemma_visit_all_advances(
    g: Graph,
    done: Set<Seq<char>>,
    active: Set<Seq<char>>,
    deps: Seq<Seq<char>>,
    log: Seq<Visit>,
    at: nat,
)
    requires
        g.dom().finite(),
    ensures
        visit_all(g, done, active, deps, log, at).at >= at,
    decreases unvisited(g, done, active).len(), deps.len(),
{
    if deps.len() > 0 {
        let first = visit(g, done, active, deps[0], log, at);
        lemma_visit_advances(g, done, active, deps[0], log, at);
        if first.result is Ok {
            lemma_progress_decreases(g, done, active, first.finished);
            lemma_visit_all_advances(
                g,
                done.union(first.finished),
                active,
                deps.drop_first(),
                log,
                first.at,
            );
        }
    }
}

/// A visit depends on the log only at the positions it goes through: two
/// logs that agree there replay to the same run.
pub proof fn lemma_visit_reads_its_part(
    g: Graph,
    done: Set<Seq<char>>,
    active: Set<Seq<char>>,
    name: Seq<char>,
    log: Seq<Visit>,
    other: Seq<Visit>,
    at: nat,
)
    requires
        g.dom().finite(),
        agree(log, other, visit(g, done, active, name, log, at).at),
    ensures
        visit(g, done, active, name, other, at) == visit(g, done, active, name, log, at),
    decreases unvisited(g, done, active).len(), 0nat,
{
    if g.contains_key(name) && !done.contains(name) && !active.contains(name) {
        lemma_enter_decreases(g, done, active, name);
        let inner = active.insert(name);
        let below = visit_all(g, done, inner, g[name], log, at);
        lemma_visit_all_advances(g, done, inner, g[name], log, at);
        lemma_visit_all_reads_its_part(g, done, inner, g[name], log, other, at);
    }
}

/// A sequence of visits depends on the log only at the positions it goes
/// through.
pub proof fn lemma_visit_all_reads_its_part(
    g: Graph,
    done: Set<Seq<char>>,
    active: Set<Seq<char>>,
    deps: Seq<Seq<char>>,
    log: Seq<Visit>,
    other: Seq<Visit>,
    at: nat,
)
    requires
        g.dom().finite(),
        agree(log, other, visit_all(g, done, active, deps, log, at).at),
    ensures
        visit_all(g, done, active, deps, other, at) == visit_all(g, done, active, deps, log, at),
    decreases unvisited(g, done, active).len(), deps.len(),
{
    if deps.len() > 0 {
        let first = visit(g, done, active, deps[0], log, at);
        if first.result is Ok {
            lemma_progress_decreases(g, done, active, first.finished);
            let next = done.union(first.finished);
            lemma_visit_all_advances(g, next, active, deps.drop_first(), log, first.at);
            lemma_visit_reads_its_part(g, done, active, deps[0], log, other, at);
            lemma_visit_all_reads_its_part(g, next, active, deps.drop_first(), log, other, first.at);
        } else {
            lemma_visit_reads_its_part(g, done, active, deps[0], log, other, at);
        }
    }
}

/// A visit finishes only tasks that were unvisited.
pub proof fn lemma_visit_stays_unvisited(
    g: Graph,
    done: Set<Seq<char>>,
    active: Set<Seq<char>>,
    name: Seq<char>,
    log: Seq<Visit>,
    at: nat,
)
    requires
        g.dom().finite(),
    ensures
        visit(g, done, active, name, log, at).finished.subset_of(unvisited(g, done, active)),
    decreases unvisited(g, done, active).len(), 0nat,
{
    if g.contains_key(name) && !done.contains(name) && !active.contains(name) {
        lemma_enter_decreases(g, done, active, name);
        lemma_visit_all_stays_unvisited(g, done, active.insert(name), g[name], log, at);
    }
}

/// A sequence of visits finishes only tasks that were unvisited.
pub proof fn lemma_visit_all_stays_unvisited(
    g: Graph,
    done: Set<Seq<char>>,
    active: Set<Seq<char>>,
    deps: Seq<Seq<char>>,
    log: Seq<Visit>,
    at: nat,
)
    requires
        g.dom().finite(),
    ensures
        visit_all(g, done, active, deps, log, at).finished.subset_of(unvisited(g, done, active)),
    decreases unvisited(g, done, active).len(), deps.len(),
{
    if deps.len() > 0 {
        let first = visit(g, done, active, deps[0], log, at);
        lemma_visit_stays_unvisited(g, done, active, deps[0], log, at);
        if first.result is Ok {
            lemma_progress_decreases(g, done, active, first.finished);
            lemma_visit_all_stays_unvisited(
                g,
                done.union(first.finished),
                active,
                deps.drop_first(),
                log,
                first.at,
            );
        }
    }
}

/// Visiting `deps` is visiting its first `i` names and then, unless that
/// ended the run, the others.
pub proof fn lemma_visit_all_split(
    g: Graph,
    done: Set<Seq<char>>,
    active: Set<Seq<char>>,
    deps: Seq<Seq<char>>,
    i: int,
    log: Seq<Visit>,
    at: nat,
)
    requires
        g.dom().finite(),
        0 <= i <= deps.len(),
    ensures
        ({
            let head = visit_all(g, done, active, deps.take(i), log, at);
            visit_all(g, done, active, deps, log, at) == if head.result is Err {
                head
            } else {
                then(
                    head,
                    visit_all(g, done.union(head.finished), active, deps.skip(i), log, head.at),
                )
            }
        }),
    decreases deps.len(),
{
    let whole = visit_all(g, done, active, deps, log, at);
    let head = visit_all(g, done, active, deps.take(i), log, at);
    if i == 0 {
        assert(deps.take(0).len() == 0);
        assert(deps.skip(0) =~= deps);
        assert(done.union(head.finished) =~= done);
        let tail = visit_all(g, done, active, deps, log, at);
        assert(then(head, tail).finished =~= tail.finished);
    } else {
        let first = visit(g, done, active, deps[0], log, at);
        assert(deps.take(i)[0] == deps[0]);
        assert(deps.take(i).drop_first() =~= deps.drop_first().take(i - 1));
        assert(deps.drop_first().skip(i - 1) =~= deps.skip(i));
        if first.result is Ok {
            let next = done.union(first.finished);
            lemma_visit_all_split(g, next, active, deps.drop_first(), i - 1, log, first.at);
            let mid = visit_all(g, next, active, deps.drop_first().take(i - 1), log, first.at);
            assert(head == then(first, mid));
            if mid.result is Ok {
                assert(next.union(mid.finished) =~= done.union(head.finished));
                let tail = visit_all(g, next.union(mid.finished), active, deps.skip(i), log, mid.at);
                assert(then(first, then(mid, tail)).finished =~= then(head, tail).finished);
            }
        }
    }
}

/// The visit of the dependency at position `i` of `deps`, in the state
/// that the visits of the dependencies before it have left.
pub open spec fn visit_nth(
    g: Graph,
    done: Set<Seq<char>>,
    active: Set<Seq<char>>,
    deps: Seq<Seq<char>>,
    i: int,
    log: Seq<Visit>,
    at: nat,
) -> Run {
    let head = visit_all(g, done, active, deps.take(i), log, at);
    visit(g, done.union(head.finished), active, deps[i], log, head.at)
}

/// When no visit of a dependency ends the run, the visits together report
/// `Executed` if one of them does, whichever it is.
pub proof fn law_one_executed_is_enough(
    g: Graph,
    done: Set<Seq<char>>,
    active: Set<Seq<char>>,
    deps: Seq<Seq<char>>,
    i: int,
    log: Seq<Visit>,
    at: nat,
)
    requires
        g.dom().finite(),
        0 <= i < deps.len(),
        visit_all(g, done, active, deps, log, at).result is Ok,
        visit_nth(g, done, active, deps, i, log, at).result
            == Ok::<ExecutionBehavior, Abort>(ExecutionBehavior::Executed),
    ensures
        visit_all(g, done, active, deps, log, at).result
            == Ok::<ExecutionBehavior, Abort>(ExecutionBehavior::Executed),
{
    lemma_visit_all_split(g, done, active, deps, i, log, at);
    let head = visit_all(g, done, active, deps.take(i), log, at);
    let after = done.union(head.finished);
    let tail = deps.skip(i);
    assert(tail[0] == deps[i]);
    assert(tail.len() > 0);
}

/// When no visit of a dependency ends the run and none reports `Executed`,
/// the visits together report `Skipped`.
pub proof fn law_none_executed_is_skipped(
    g: Graph,
    done: Set<Seq<char>>,
    active: Set<Seq<char>>,
    deps: Seq<Seq<char>>,
    log: Seq<Visit>,
    at: nat,
)
    requires
        g.dom().finite(),
        visit_all(g, done, active, deps, log, at).result is Ok,
        forall|i: int|
            0 <= i < deps.len() ==> (#[trigger] visit_nth(g, done, active, deps, i, log, at)).result
                != Ok::<ExecutionBehavior, Abort>(ExecutionBehavior::Executed),
    ensures
        visit_all(g, done, active, deps, log, at).result
            == Ok::<ExecutionBehavior, Abort>(ExecutionBehavior::Skipped),
    decreases deps.len(),
{
    if deps.len() > 0 {
        let n = deps.len() - 1;
        lemma_visit_all_split(g, done, active, deps, n, log, at);
        let head = visit_all(g, done, active, deps.take(n), log, at);
        let last = visit_nth(g, done, active, deps, n, log, at);
        assert(deps.skip(n)[0] == deps[n]);
        assert(deps.skip(n).drop_first().len() == 0);
        assert(visit_all(
            g,
            done.union(head.finished).union(last.finished),
            active,
            deps.skip(n).drop_first(),
            log,
            last.at,
        ) == idle(last.at));
        assert forall|i: int| 0 <= i < n implies (#[trigger] visit_nth(
            g,
            done,
            active,
            deps.take(n),
            i,
            log,
            at,
        )).result != Ok::<ExecutionBehavior, Abort>(ExecutionBehavior::Executed) by {
            assert(deps.take(n).take(i) =~= deps.take(i));
            assert(visit_nth(g, done, active, deps, i, log, at).result != Ok::<
                ExecutionBehavior,
                Abort,
            >(ExecutionBehavior::Executed));
        }
        law_none_executed_is_skipped(g, done, active, deps.take(n), log, at);
    }
}

/// A task without dependencies that is not done is consulted once and
/// nothing else is.  It is run exactly when it says that it needs execution,
/// and the visit succeeds exactly when the task was not run or its run
/// succeeded.
pub proof fn law_leaf(g: Graph, done: Set<Seq<char>>, name: Seq<char>, log: Seq<Visit>, at: nat)
    requires
        g.dom().finite(),
        g.contains_key(name),
        g[name].len() == 0,
        !done.contains(name),
        visit(g, done, Set::empty(), name, log, at).faithful,
    ensures
        ({
            let run = visit(g, done, Set::empty(), name, log, at);
            let record = log[at as int];
            &&& run.at == at + 1
            &&& at < log.len()
            &&& record.name == name
            &&& (record.outcome is Some) == record.stale
            &&& run.result is Ok <==> !(record.outcome matches Some(Err(_)))
            &&& run.result matches Ok(b) ==> (b == ExecutionBehavior::Executed) == record.stale
            &&& run.result matches Err(a) ==> record.outcome == Some(Err::<(), Error>(a->Failed_0))
                && a is Failed
        }),
{
    let inner = Set::<Seq<char>>::empty().insert(name);
    lemma_enter_decreases(g, done, Set::empty(), name);
    assert(visit_all(g, done, inner, g[name], log, at) == idle(at));
}

/// A task that is not done is run when a visit made for one of its
/// dependencies ran a task, whatever the task itself says: its record in
/// the log then holds the outcome of a run.
pub proof fn law_dependency_forces_run(
    g: Graph,
    done: Set<Seq<char>>,
    active: Set<Seq<char>>,
    name: Seq<char>,
    i: int,
    log: Seq<Visit>,
    at: nat,
)
    requires
        g.dom().finite(),
        g.contains_key(name),
        !done.contains(name),
        !active.contains(name),
        0 <= i < g[name].len(),
        visit_all(g, done, active.insert(name), g[name], log, at).result is Ok,
        visit_nth(g, done, active.insert(name), g[name], i, log, at).result
            == Ok::<ExecutionBehavior, Abort>(ExecutionBehavior::Executed),
        visit(g, done, active, name, log, at).faithful,
    ensures
        ({
            let below = visit_all(g, done, active.insert(name), g[name], log, at);
            let record = log[below.at as int];
            &&& below.at < log.len()
            &&& record.name == name
            &&& record.outcome is Some
            &&& visit(g, done, active, name, log, at).result is Ok ==> visit(
                g,
                done,
                active,
                name,
                log,
                at,
            ).result == Ok::<ExecutionBehavior, Abort>(ExecutionBehavior::Executed)
        }),
{
    lemma_enter_decreases(g, done, active, name);
    law_one_executed_is_enough(g, done, active.insert(name), g[name], i, log, at);
}

/// True when the records of `log` between `at` and the end of `run` name
/// tasks that were unvisited, no task twice, and each of them a task that
/// the run finished, but for the last one where the run ended in a
/// failure.
pub open spec fn consults_each_once(
    g: Graph,
    done: Set<Seq<char>>,
    active: Set<Seq<char>>,
    log: Seq<Visit>,
    at: nat,
    run: Run,
) -> bool {
    &&& forall|i: int|
        at <= i < run.at ==> unvisited(g, done, active).contains(#[trigger] log[i].name)
    &&& forall|i: int|
        at <= i < run.at && (run.result is Ok || i + 1 < run.at) ==> run.finished.contains(
            #[trigger] log[i].name,
        )
    &&& forall|i: int, j: int|
        at <= i < j < run.at ==> (#[trigger] log[i]).name != (#[trigger] log[j]).name
}

/// A visit consults no task twice, none that is done and none that is
/// active, however often a task is reached.
pub proof fn law_visit_consults_each_once(
    g: Graph,
    done: Set<Seq<char>>,
    active: Set<Seq<char>>,
    name: Seq<char>,
    log: Seq<Visit>,
    at: nat,
)
    requires
        g.dom().finite(),
        visit(g, done, active, name, log, at).faithful,
    ensures
        consults_each_once(g, done, active, log, at, visit(g, done, active, name, log, at)),
    decreases unvisited(g, done, active).len(), 0nat,
{
    if g.contains_key(name) && !done.contains(name) && !active.contains(name) {
        lemma_enter_decreases(g, done, active, name);
        let inner = active.insert(name);
        let below = visit_all(g, done, inner, g[name], log, at);
        law_visit_all_consults_each_once(g, done, inner, g[name], log, at);
        lemma_visit_all_advances(g, done, inner, g[name], log, at);
        let run = visit(g, done, active, name, log, at);
        assert forall|i: int| at <= i < below.at implies unvisited(g, done, active).contains(
            #[trigger] log[i].name,
        ) && log[i].name != name by {
            assert(unvisited(g, done, inner).contains(log[i].name));
        }
    }
}

/// A sequence of visits consults no task twice, none that is done and none
/// that is active.
pub proof fn law_visit_all_consults_each_once(
    g: Graph,
    done: Set<Seq<char>>,
    active: Set<Seq<char>>,
    deps: Seq<Seq<char>>,
    log: Seq<Visit>,
    at: nat,
)
    requires
        g.dom().finite(),
        visit_all(g, done, active, deps, log, at).faithful,
    ensures
        consults_each_once(g, done, active, log, at, visit_all(g, done, active, deps, log, at)),
    decreases unvisited(g, done, active).len(), deps.len(),
{
    if deps.len() > 0 {
        let first = visit(g, done, active, deps[0], log, at);
        law_visit_consults_each_once(g, done, active, deps[0], log, at);
        lemma_visit_advances(g, done, active, deps[0], log, at);
        if first.result is Ok {
            lemma_progress_decreases(g, done, active, first.finished);
            let next = done.union(first.finished);
            let rest = visit_all(g, next, active, deps.drop_first(), log, first.at);
            law_visit_all_consults_each_once(g, next, active, deps.drop_first(), log, first.at);
            lemma_visit_all_advances(g, next, active, deps.drop_first(), log, first.at);
            assert forall|i: int| first.at <= i < rest.at implies unvisited(g, done, active).contains(
                #[trigger] log[i].name,
            ) && !first.finished.contains(log[i].name) by {
                assert(unvisited(g, next, active).contains(log[i].name));
            }
            assert forall|i: int| at <= i < first.at implies first.finished.contains(
                #[trigger] log[i].name,
            ) by {}
        }
    }
}

/// A visit that succeeds leaves its task done.
pub proof fn law_success_leaves_done(
    g: Graph,
    done: Set<Seq<char>>,
    active: Set<Seq<char>>,
    name: Seq<char>,
    log: Seq<Visit>,
    at: nat,
)
    requires
        g.dom().finite(),
        visit(g, done, active, name, log, at).result is Ok,
    ensures
        done.union(visit(g, done, active, name, log, at).finished).contains(name),
{
    if g.contains_key(name) && !done.contains(name) && !active.contains(name) {
        lemma_enter_decreases(g, done, active, name);
    }
}

/// In a well-formed graph only the root of a run can be missing: a visit
/// ends with `NotFound` exactly when its root is no task of the graph.
pub proof fn law_only_root_is_missing(
    g: Graph,
    done: Set<Seq<char>>,
    active: Set<Seq<char>>,
    name: Seq<char>,
    log: Seq<Visit>,
    at: nat,
)
    requires
        well_formed(g),
    ensures
        visit(g, done, active, name, log, at).result is Err && visit(
            g,
            done,
            active,
            name,
            log,
            at,
        ).result->Err_0 is NotFound <==> !g.contains_key(name),
        !g.contains_key(name) ==> visit(g, done, active, name, log, at) == halt(
            at,
            Abort::NotFound(name),
        ),
    decreases unvisited(g, done, active).len(), 0nat,
{
    if g.contains_key(name) && !done.contains(name) && !active.contains(name) {
        lemma_enter_decreases(g, done, active, name);
        lemma_all_found(g, done, active.insert(name), g[name], log, at);
    }
}

/// Visits of tasks of a well-formed graph never end with `NotFound`.
pub proof fn lemma_all_found(
    g: Graph,
    done: Set<Seq<char>>,
    active: Set<Seq<char>>,
    deps: Seq<Seq<char>>,
    log: Seq<Visit>,
    at: nat,
)
    requires
        well_formed(g),
        forall|i: int| 0 <= i < deps.len() ==> g.contains_key(#[trigger] deps[i]),
    ensures
        !(visit_all(g, done, active, deps, log, at).result is Err && visit_all(
            g,
            done,
            active,
            deps,
            log,
            at,
        ).result->Err_0 is NotFound),
    decreases unvisited(g, done, active).len(), deps.len(),
{
    if deps.len() > 0 {
        let first = visit(g, done, active, deps[0], log, at);
        law_only_root_is_missing(g, done, active, deps[0], log, at);
        if first.result is Ok {
            lemma_progress_decreases(g, done, active, first.finished);
            assert forall|i: int| 0 <= i < deps.drop_first().len() implies g.contains_key(
                #[trigger] deps.drop_first()[i],
            ) by {
                assert(deps.drop_first()[i] == deps[i + 1]);
            }
            lemma_all_found(g, done.union(first.finished), active, deps.drop_first(), log, first.at);
        }
    }
}

/// `rank` gives every task that it ranks a number above those of the tasks
/// it depends on, all of which it ranks too.  Where such a ranking ranks a
/// task, no cycle can be reached from the task.
pub open spec fn ranked(g: Graph, rank: Map<Seq<char>, nat>) -> bool {
    forall|n: Seq<char>, i: int|
        rank.contains_key(n) && g.contains_key(n) && 0 <= i < g[n].len() ==> rank.contains_key(
            #[trigger] g[n][i],
        ) && rank[g[n][i]] < rank[n]
}

/// Where no cycle can be reached from the root of a visit, the visit does
/// not end with `Cycle`, provided that every active task ranks above the
/// root.  A cycle elsewhere in the graph does not matter.
pub proof fn law_no_cycle_no_abort(
    g: Graph,
    rank: Map<Seq<char>, nat>,
    done: Set<Seq<char>>,
    active: Set<Seq<char>>,
    name: Seq<char>,
    log: Seq<Visit>,
    at: nat,
)
    requires
        g.dom().finite(),
        ranked(g, rank),
        rank.contains_key(name),
        forall|a: Seq<char>| #[trigger] active.contains(a) ==> rank[a] > rank[name],
    ensures
        !(visit(g, done, active, name, log, at).result is Err && visit(
            g,
            done,
            active,
            name,
            log,
            at,
        ).result->Err_0 is Cycle),
    decreases unvisited(g, done, active).len(), 0nat,
{
    if g.contains_key(name) && !done.contains(name) && !active.contains(name) {
        lemma_enter_decreases(g, done, active, name);
        lemma_no_cycle_no_abort_all(g, rank, done, active.insert(name), g[name], log, at);
    }
}

/// Where no cycle can be reached from the roots of a sequence of visits,
/// the visits do not end with `Cycle`, provided that every active task
/// ranks above each of the roots.
pub proof fn lemma_no_cycle_no_abort_all(
    g: Graph,
    rank: Map<Seq<char>, nat>,
    done: Set<Seq<char>>,
    active: Set<Seq<char>>,
    deps: Seq<Seq<char>>,
    log: Seq<Visit>,
    at: nat,
)
    requires
        g.dom().finite(),
        ranked(g, rank),
        forall|i: int| 0 <= i < deps.len() ==> rank.contains_key(#[trigger] deps[i]),
        forall|a: Seq<char>, i: int|
            #[trigger] active.contains(a) && 0 <= i < deps.len() ==> rank[a] > rank[
            #[trigger] deps[i]],
    ensures
        !(visit_all(g, done, active, deps, log, at).result is Err && visit_all(
            g,
            done,
            active,
            deps,
            log,
            at,
        ).result->Err_0 is Cycle),
    decreases unvisited(g, done, active).len(), deps.len(),
{
    if deps.len() > 0 {
        let first = visit(g, done, active, deps[0], log, at);
        law_no_cycle_no_abort(g, rank, done, active, deps[0], log, at);
        if first.result is Ok {
            lemma_progress_decreases(g, done, active, first.finished);
            assert forall|a: Seq<char>, i: int|
                #[trigger] active.contains(a) && 0 <= i < deps.drop_first().len() implies rank[a]
                > rank[#[trigger] deps.drop_first()[i]] by {
                assert(deps.drop_first()[i] == deps[i + 1]);
            }
            assert forall|i: int| 0 <= i < deps.drop_first().len() implies rank.contains_key(
                #[trigger] deps.drop_first()[i],
            ) by {
                assert(deps.drop_first()[i] == deps[i + 1]);
            }
            lemma_no_cycle_no_abort_all(
                g,
                rank,
                done.union(first.finished),
                active,
                deps.drop_first(),
                log,
                first.at,
            );
        }
    }
}

} // verus!
