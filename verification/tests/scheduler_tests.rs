use std::sync::{Arc, Mutex};

use nexus_ecs::scheduler::{Scheduler, SystemDescriptor};

type Run = Box<dyn Fn() + Send + Sync>;

fn counter_system(log: Arc<Mutex<Vec<&'static str>>>, name: &'static str) -> Run {
    Box::new(move || log.lock().unwrap().push(name))
}

fn noop() -> Run {
    Box::new(|| {})
}

/// Runs the compiled stages one after the other, in stage order.
fn run_stages(sched: &Scheduler<Run>) {
    let stages = sched.stages().expect("built");
    for stage in stages {
        for &i in stage {
            (sched.systems()[i].run)();
        }
    }
}

fn stage_of(sched: &Scheduler<Run>, name: &str) -> usize {
    let stages = sched.stages().expect("built");
    for (l, stage) in stages.iter().enumerate() {
        for &i in stage {
            if sched.systems()[i].name == name {
                return l;
            }
        }
    }
    panic!("system {} not staged", name)
}

#[test]
fn single_system_runs() {
    let log = Arc::new(Mutex::new(Vec::new()));
    let mut sched: Scheduler<Run> = Scheduler::new();
    sched.add_system(SystemDescriptor {
        name: "a",
        dependencies: vec![],
        run: counter_system(log.clone(), "a"),
    });
    sched.build().unwrap();
    run_stages(&sched);
    assert_eq!(*log.lock().unwrap(), vec!["a"]);
}

#[test]
fn dependency_respected_ordering() {
    let log = Arc::new(Mutex::new(Vec::new()));
    let mut sched: Scheduler<Run> = Scheduler::new();
    // b depends on a — a must run first
    sched.add_system(SystemDescriptor {
        name: "b",
        dependencies: vec!["a"],
        run: counter_system(log.clone(), "b"),
    });
    sched.add_system(SystemDescriptor {
        name: "a",
        dependencies: vec![],
        run: counter_system(log.clone(), "a"),
    });
    sched.build().unwrap();
    assert_eq!(sched.stage_count(), 2);
    run_stages(&sched);
    let result = log.lock().unwrap().clone();
    let a_pos = result.iter().position(|&x| x == "a").unwrap();
    let b_pos = result.iter().position(|&x| x == "b").unwrap();
    assert!(a_pos < b_pos, "a must run before b, got: {:?}", result);
}

#[test]
fn independent_systems_same_stage() {
    let mut sched: Scheduler<Run> = Scheduler::new();
    for name in ["x", "y", "z"] {
        sched.add_system(SystemDescriptor { name, dependencies: vec![], run: noop() });
    }
    sched.build().unwrap();
    // All independent — should collapse into one stage.
    assert_eq!(sched.stage_count(), 1);
}

#[test]
fn diamond_dependency() {
    // a → b, a → c, b → d, c → d
    let mut sched: Scheduler<Run> = Scheduler::new();
    for (name, deps) in [("a", vec![]), ("b", vec!["a"]), ("c", vec!["a"]), ("d", vec!["b", "c"])] {
        sched.add_system(SystemDescriptor { name, dependencies: deps, run: noop() });
    }
    sched.build().unwrap();
    // stage 0: [a], stage 1: [b, c], stage 2: [d]
    assert_eq!(sched.stage_count(), 3);
}

#[test]
fn cycle_returns_error() {
    let mut sched: Scheduler<Run> = Scheduler::new();
    sched.add_system(SystemDescriptor { name: "p", dependencies: vec!["q"], run: noop() });
    sched.add_system(SystemDescriptor { name: "q", dependencies: vec!["p"], run: noop() });
    assert!(sched.build().is_err());
}

#[test]
fn diamond_stage_contents() {
    let mut sched: Scheduler<Run> = Scheduler::default();
    for (name, deps) in [("d", vec!["b", "c"]), ("c", vec!["a"]), ("b", vec!["a"]), ("a", vec![])] {
        sched.add_system(SystemDescriptor { name, dependencies: deps, run: noop() });
    }
    sched.build().unwrap();
    assert_eq!(stage_of(&sched, "a"), 0);
    assert_eq!(stage_of(&sched, "b"), 1);
    assert_eq!(stage_of(&sched, "c"), 1);
    assert_eq!(stage_of(&sched, "d"), 2);
    let stages = sched.stages().unwrap();
    assert_eq!(stages.len(), 3);
    assert_eq!(stages[0], vec![3]);
    assert_eq!(stages[2], vec![0]);
    assert_eq!(stages[1], vec![1, 2]);
}

#[test]
fn longest_chain_decides_stage() {
    // e depends on a directly and through b → c, so it runs after c
    let mut sched: Scheduler<Run> = Scheduler::new();
    for (name, deps) in
        [("a", vec![]), ("b", vec!["a"]), ("c", vec!["b"]), ("e", vec!["a", "c"])]
    {
        sched.add_system(SystemDescriptor { name, dependencies: deps, run: noop() });
    }
    sched.build().unwrap();
    assert_eq!(sched.stage_count(), 4);
    assert_eq!(stage_of(&sched, "e"), 3);
}

#[test]
fn cycle_error_names_blocked_systems_in_order() {
    let mut sched: Scheduler<Run> = Scheduler::new();
    sched.add_system(SystemDescriptor { name: "free", dependencies: vec![], run: noop() });
    sched.add_system(SystemDescriptor { name: "p", dependencies: vec!["q"], run: noop() });
    sched.add_system(SystemDescriptor { name: "q", dependencies: vec!["p"], run: noop() });
    // waits on the cycle without being part of it
    sched.add_system(SystemDescriptor { name: "r", dependencies: vec!["free", "q"], run: noop() });
    let err = sched.build().unwrap_err();
    assert_eq!(err.0, vec!["p", "q", "r"]);
    assert_eq!(sched.stage_count(), 0);
    assert!(sched.stages().is_none());
}

#[test]
fn self_dependency_is_a_cycle() {
    let mut sched: Scheduler<Run> = Scheduler::new();
    sched.add_system(SystemDescriptor { name: "s", dependencies: vec!["s"], run: noop() });
    let err = sched.build().unwrap_err();
    assert_eq!(err.0, vec!["s"]);
}

#[test]
fn failed_build_leaves_no_stages() {
    let mut sched: Scheduler<Run> = Scheduler::new();
    sched.add_system(SystemDescriptor { name: "a", dependencies: vec![], run: noop() });
    sched.build().unwrap();
    assert_eq!(sched.stage_count(), 1);
    // adding a system drops the compiled stages
    sched.add_system(SystemDescriptor { name: "b", dependencies: vec!["b"], run: noop() });
    assert_eq!(sched.stage_count(), 0);
    assert!(sched.build().is_err());
    assert_eq!(sched.stage_count(), 0);
}

#[test]
fn empty_scheduler_builds_no_stages() {
    let mut sched: Scheduler<Run> = Scheduler::new();
    assert_eq!(sched.stage_count(), 0);
    sched.build().unwrap();
    assert_eq!(sched.stage_count(), 0);
    assert_eq!(sched.stages().map(|s| s.len()), Some(0));
}

#[test]
fn duplicate_dependency_counts_once_per_edge() {
    let mut sched: Scheduler<Run> = Scheduler::new();
    sched.add_system(SystemDescriptor { name: "a", dependencies: vec![], run: noop() });
    sched.add_system(SystemDescriptor { name: "b", dependencies: vec!["a", "a"], run: noop() });
    sched.build().unwrap();
    assert_eq!(sched.stage_count(), 2);
}

#[test]
fn missing_dependency_is_reported() {
    let mut sched: Scheduler<Run> = Scheduler::new();
    sched.add_system(SystemDescriptor { name: "a", dependencies: vec![], run: noop() });
    assert_eq!(sched.missing_dependency(), None);
    sched.add_system(SystemDescriptor { name: "b", dependencies: vec!["a", "ghost"], run: noop() });
    assert_eq!(sched.missing_dependency(), Some(("b", "ghost")));
}

#[test]
fn cycle_persists_after_more_registrations() {
    // a cycle stays a cycle when more systems are added: every build fails
    // and no stages are ever compiled
    let mut sched: Scheduler<Run> = Scheduler::new();
    sched.add_system(SystemDescriptor { name: "p", dependencies: vec!["q"], run: noop() });
    sched.add_system(SystemDescriptor { name: "q", dependencies: vec!["p"], run: noop() });
    assert!(sched.build().is_err());
    sched.add_system(SystemDescriptor { name: "z", dependencies: vec![], run: noop() });
    let err = sched.build().unwrap_err();
    assert_eq!(err.0, vec!["p", "q"]);
    assert!(sched.stages().is_none());
}

#[test]
fn later_stage_follows_discovery_order() {
    // c depends on b, d on a: d becomes ready first, while a is processed
    let mut sched: Scheduler<Run> = Scheduler::new();
    for (name, deps) in [("a", vec![]), ("b", vec![]), ("c", vec!["b"]), ("d", vec!["a"])] {
        sched.add_system(SystemDescriptor { name, dependencies: deps, run: noop() });
    }
    sched.build().unwrap();
    let stages = sched.stages().unwrap();
    assert_eq!(stages[0], vec![0, 1]);
    assert_eq!(stages[1], vec![3, 2]);
}
