use builder::context::Context;
use builder::error::BuildError;
use builder::error::Error;
use builder::executor::Executor;
use builder::task::Task;
use std::cell::RefCell;
use std::ops::DerefMut;
use std::rc::Rc;

struct TestTask {
    flag: Rc<RefCell<bool>>,
}

impl TestTask {
    fn new(flag: Rc<RefCell<bool>>) -> TestTask {
        TestTask { flag: flag }
    }
}

impl Task for TestTask {
    fn needs_execution(&self) -> bool {
        true
    }
    fn execute(&self) -> Result<(), Error> {
        *self.flag.borrow_mut().deref_mut() = true;
        Ok(())
    }
}

fn flag() -> Rc<RefCell<bool>> {
    Rc::new(RefCell::new(false))
}

/// A task that counts how often it is asked and run, and writes its name
/// to a shared journal when it runs.
struct Probe {
    name: &'static str,
    stale: bool,
    fails: bool,
    asked: Rc<RefCell<u32>>,
    ran: Rc<RefCell<u32>>,
    journal: Rc<RefCell<Vec<String>>>,
}

struct Counters {
    asked: Rc<RefCell<u32>>,
    ran: Rc<RefCell<u32>>,
}

impl Counters {
    fn asked(&self) -> u32 {
        *self.asked.borrow()
    }
    fn ran(&self) -> u32 {
        *self.ran.borrow()
    }
}

fn probe(
    ctx: &mut Context,
    journal: &Rc<RefCell<Vec<String>>>,
    name: &'static str,
    stale: bool,
    fails: bool,
) -> Counters {
    let asked = Rc::new(RefCell::new(0));
    let ran = Rc::new(RefCell::new(0));
    ctx.add_task(
        name,
        Box::new(Probe {
            name,
            stale,
            fails,
            asked: asked.clone(),
            ran: ran.clone(),
            journal: journal.clone(),
        }),
    );
    Counters { asked, ran }
}

impl Task for Probe {
    fn needs_execution(&self) -> bool {
        *self.asked.borrow_mut() += 1;
        self.stale
    }
    fn execute(&self) -> Result<(), Error> {
        *self.ran.borrow_mut() += 1;
        self.journal.borrow_mut().push(self.name.to_string());
        if self.fails {
            Err(Error::Build(BuildError::ExecutionError(format!("{} failed", self.name))))
        } else {
            Ok(())
        }
    }
}

fn journal() -> Rc<RefCell<Vec<String>>> {
    Rc::new(RefCell::new(Vec::new()))
}

fn edge(ctx: &mut Context, from: &str, to: &str) {
    ctx.task_mut(from).unwrap().depends_on(to).unwrap();
}

#[test]
fn execution() {
    let flag0 = flag();
    let flag1 = flag();
    let flag2 = flag();
    let flag3 = flag();
    let flag4 = flag();

    let mut ctx = Context::new();
    ctx.add_task("task0", Box::new(TestTask::new(flag0.clone())));
    ctx.add_task("task1", Box::new(TestTask::new(flag1.clone())));
    ctx.add_task("task2", Box::new(TestTask::new(flag2.clone())));
    ctx.add_task("task3", Box::new(TestTask::new(flag3.clone())));
    ctx.add_task("task4", Box::new(TestTask::new(flag4.clone())));

    ctx.task_mut("task0").unwrap().depends_on("task1").unwrap();
    ctx.task_mut("task1").unwrap().depends_on("task2").unwrap();
    ctx.task_mut("task1").unwrap().depends_on("task3").unwrap();

    let mut executor = Executor::new(&ctx);
    executor.execute("task0").unwrap();

    assert_eq!(*(*flag0).borrow(), true);
    assert_eq!(*(*flag1).borrow(), true);
    assert_eq!(*(*flag2).borrow(), true);
    assert_eq!(*(*flag3).borrow(), true);
    assert_eq!(*(*flag4).borrow(), false);
}

#[test]
fn chain_runs_dependencies_first_each_once() {
    let j = journal();
    let mut ctx = Context::new();
    let t0 = probe(&mut ctx, &j, "task0", true, false);
    let t1 = probe(&mut ctx, &j, "task1", true, false);
    let t2 = probe(&mut ctx, &j, "task2", true, false);
    let t3 = probe(&mut ctx, &j, "task3", true, false);
    let t4 = probe(&mut ctx, &j, "task4", true, false);
    edge(&mut ctx, "task0", "task1");
    edge(&mut ctx, "task1", "task2");
    edge(&mut ctx, "task1", "task3");

    let mut executor = Executor::new(&ctx);
    assert_eq!(executor.execute("task0"), Ok(()));

    assert_eq!(*j.borrow(), vec!["task2", "task3", "task1", "task0"]);
    assert_eq!((t0.ran(), t1.ran(), t2.ran(), t3.ran()), (1, 1, 1, 1));
    assert_eq!((t4.asked(), t4.ran()), (0, 0));
}

#[test]
fn missing_root_is_not_found_and_runs_nothing() {
    let ctx = Context::new();
    let mut executor = Executor::new(&ctx);
    assert_eq!(
        executor.execute("missing_task"),
        Err(Error::ItemNotFound { name: "missing_task".to_string() })
    );
}

#[test]
fn missing_root_leaves_other_tasks_alone() {
    let j = journal();
    let mut ctx = Context::new();
    let t = probe(&mut ctx, &j, "t", true, false);
    let mut executor = Executor::new(&ctx);
    assert!(executor.execute("missing_task").is_err());
    assert_eq!((t.asked(), t.ran()), (0, 0));
}

#[test]
fn stale_leaf_runs_exactly_once() {
    let j = journal();
    let mut ctx = Context::new();
    let t = probe(&mut ctx, &j, "t", true, false);
    let mut executor = Executor::new(&ctx);
    assert_eq!(executor.execute("t"), Ok(()));
    assert_eq!((t.asked(), t.ran()), (1, 1));
}

#[test]
fn stale_leaf_that_fails_fails_the_call() {
    let j = journal();
    let mut ctx = Context::new();
    let t = probe(&mut ctx, &j, "t", true, true);
    let mut executor = Executor::new(&ctx);
    assert_eq!(
        executor.execute("t"),
        Err(Error::Build(BuildError::ExecutionError("t failed".to_string())))
    );
    assert_eq!(t.ran(), 1);
}

#[test]
fn fresh_leaf_never_runs() {
    let j = journal();
    let mut ctx = Context::new();
    let t = probe(&mut ctx, &j, "t", false, true);
    let mut executor = Executor::new(&ctx);
    assert_eq!(executor.execute("t"), Ok(()));
    assert_eq!((t.asked(), t.ran()), (1, 0));
}

#[test]
fn done_task_is_not_consulted_again() {
    let j = journal();
    let mut ctx = Context::new();
    let t = probe(&mut ctx, &j, "t", true, false);
    let mut executor = Executor::new(&ctx);
    executor.execute("t").unwrap();
    executor.execute("t").unwrap();
    assert_eq!((t.asked(), t.ran()), (1, 1));
}

#[test]
fn executed_dependency_forces_fresh_dependent() {
    let j = journal();
    let mut ctx = Context::new();
    let a = probe(&mut ctx, &j, "a", false, false);
    let b = probe(&mut ctx, &j, "b", true, false);
    edge(&mut ctx, "a", "b");
    let mut executor = Executor::new(&ctx);
    executor.execute("a").unwrap();
    assert_eq!((a.ran(), b.ran()), (1, 1));
    assert_eq!(*j.borrow(), vec!["b", "a"]);
}

#[test]
fn skipped_dependency_forces_nothing() {
    let j = journal();
    let mut ctx = Context::new();
    let a = probe(&mut ctx, &j, "a", false, false);
    let b = probe(&mut ctx, &j, "b", false, false);
    edge(&mut ctx, "a", "b");
    let mut executor = Executor::new(&ctx);
    executor.execute("a").unwrap();
    assert_eq!((a.ran(), b.ran()), (0, 0));
    assert_eq!((a.asked(), b.asked()), (1, 1));
}

#[test]
fn one_executed_dependency_among_several_is_enough() {
    let j = journal();
    let mut ctx = Context::new();
    let a = probe(&mut ctx, &j, "a", false, false);
    probe(&mut ctx, &j, "b", false, false);
    probe(&mut ctx, &j, "c", true, false);
    probe(&mut ctx, &j, "d", false, false);
    edge(&mut ctx, "a", "b");
    edge(&mut ctx, "a", "c");
    edge(&mut ctx, "a", "d");
    let mut executor = Executor::new(&ctx);
    executor.execute("a").unwrap();
    assert_eq!(a.ran(), 1);
    assert_eq!(*j.borrow(), vec!["c", "a"]);
}

#[test]
fn diamond_runs_shared_dependency_once() {
    let j = journal();
    let mut ctx = Context::new();
    let root = probe(&mut ctx, &j, "root", false, false);
    let a = probe(&mut ctx, &j, "a", false, false);
    let b = probe(&mut ctx, &j, "b", false, false);
    let c = probe(&mut ctx, &j, "c", true, false);
    edge(&mut ctx, "root", "a");
    edge(&mut ctx, "root", "b");
    edge(&mut ctx, "a", "c");
    edge(&mut ctx, "b", "c");
    let mut executor = Executor::new(&ctx);
    executor.execute("root").unwrap();
    assert_eq!((c.asked(), c.ran()), (1, 1));
    // The second visit of `c` reports that nothing ran, so `b`, which is
    // not stale itself, is left alone.
    assert_eq!((a.ran(), b.ran(), root.ran()), (1, 0, 1));
    assert_eq!(*j.borrow(), vec!["c", "a", "root"]);
}

#[test]
fn failure_aborts_remaining_siblings() {
    let j = journal();
    let mut ctx = Context::new();
    let root = probe(&mut ctx, &j, "root", true, false);
    let first = probe(&mut ctx, &j, "first", true, false);
    let bad = probe(&mut ctx, &j, "bad", true, true);
    let later = probe(&mut ctx, &j, "later", true, false);
    edge(&mut ctx, "root", "first");
    edge(&mut ctx, "root", "bad");
    edge(&mut ctx, "root", "later");
    let mut executor = Executor::new(&ctx);
    assert_eq!(
        executor.execute("root"),
        Err(Error::Build(BuildError::ExecutionError("bad failed".to_string())))
    );
    assert_eq!((first.ran(), bad.ran()), (1, 1));
    assert_eq!((later.asked(), later.ran()), (0, 0));
    assert_eq!((root.asked(), root.ran()), (0, 0));
}

#[test]
fn failed_task_is_tried_again_and_done_tasks_are_kept() {
    let j = journal();
    let mut ctx = Context::new();
    let root = probe(&mut ctx, &j, "root", true, true);
    let dep = probe(&mut ctx, &j, "dep", true, false);
    edge(&mut ctx, "root", "dep");
    let mut executor = Executor::new(&ctx);
    assert!(executor.execute("root").is_err());
    assert!(executor.execute("root").is_err());
    assert_eq!(dep.ran(), 1);
    assert_eq!(root.ran(), 2);
}

#[test]
fn cycle_is_reported() {
    let j = journal();
    let mut ctx = Context::new();
    let a = probe(&mut ctx, &j, "a", true, false);
    let b = probe(&mut ctx, &j, "b", true, false);
    edge(&mut ctx, "a", "b");
    edge(&mut ctx, "b", "a");
    let mut executor = Executor::new(&ctx);
    assert_eq!(executor.execute("a"), Err(Error::DependencyCycle { name: "a".to_string() }));
    assert_eq!((a.ran(), b.ran()), (0, 0));
}

#[test]
fn self_dependency_is_a_cycle() {
    let j = journal();
    let mut ctx = Context::new();
    let a = probe(&mut ctx, &j, "a", true, false);
    edge(&mut ctx, "a", "a");
    let mut executor = Executor::new(&ctx);
    assert_eq!(executor.execute("a"), Err(Error::DependencyCycle { name: "a".to_string() }));
    assert_eq!(a.ran(), 0);
}

#[test]
fn cycle_elsewhere_does_not_matter() {
    let j = journal();
    let mut ctx = Context::new();
    probe(&mut ctx, &j, "a", true, false);
    probe(&mut ctx, &j, "b", true, false);
    let c = probe(&mut ctx, &j, "c", true, false);
    edge(&mut ctx, "a", "b");
    edge(&mut ctx, "b", "a");
    let mut executor = Executor::new(&ctx);
    assert_eq!(executor.execute("c"), Ok(()));
    assert_eq!(c.ran(), 1);
}

#[test]
fn after_a_cycle_error_the_executor_still_works() {
    let j = journal();
    let mut ctx = Context::new();
    probe(&mut ctx, &j, "a", true, false);
    probe(&mut ctx, &j, "b", true, false);
    let c = probe(&mut ctx, &j, "c", true, false);
    edge(&mut ctx, "a", "b");
    edge(&mut ctx, "b", "a");
    edge(&mut ctx, "c", "a");
    let mut executor = Executor::new(&ctx);
    assert_eq!(executor.execute("c"), Err(Error::DependencyCycle { name: "a".to_string() }));
    assert_eq!(executor.execute("c"), Err(Error::DependencyCycle { name: "a".to_string() }));
    assert_eq!(c.ran(), 0);
}
