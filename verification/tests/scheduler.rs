use boost::config::{Config, ConfigFile, DependsOn, Input};
use boost::errors::Error;
use boost::scheduler::{Scheduler, Status, build_tree, resolve_scheduler};

fn config_file(id: &str, deps: &[&str]) -> ConfigFile {
    let depends_on = if deps.is_empty() {
        None
    } else {
        Some(deps.iter().map(|d| DependsOn { name: Some(d.to_string()) }).collect())
    };
    ConfigFile {
        id: id.to_string(),
        parent: None,
        config: Config {
            description: None,
            run: format!("echo {}", id),
            depends_on,
            input: Input { files: Some(vec![]), invariants: None, env_vars: None },
            output: None,
        },
        bytes: format!("run = \"echo {}\"", id).into_bytes(),
        path: format!("{}.toml", id),
    }
}

#[test]
fn dependencies_stand_before_dependents() {
    let configs = vec![config_file("a", &["b"]), config_file("b", &[])];
    let nodes = build_tree(&vec!["a".to_string()], &configs).unwrap();
    assert_eq!(nodes.len(), 2);
    assert_eq!(nodes[0].id, "b");
    assert_eq!(nodes[1].id, "a");
    assert_eq!(nodes[1].deps, vec![0]);
    assert_eq!(nodes[0].parent.as_deref(), Some("a"));
    assert_eq!(nodes[1].parent, None);
}

#[test]
fn shared_dependency_is_resolved_once() {
    let configs = vec![
        config_file("a", &["c"]),
        config_file("b", &["c"]),
        config_file("c", &[]),
    ];
    let nodes = build_tree(&vec!["a".to_string(), "b".to_string()], &configs).unwrap();
    assert_eq!(nodes.len(), 3);
    assert_eq!(nodes.iter().filter(|n| n.id == "c").count(), 1);
    // the first discoverer keeps the parent link
    let c = nodes.iter().find(|n| n.id == "c").unwrap();
    assert_eq!(c.parent.as_deref(), Some("a"));
}

#[test]
fn missing_config_is_reported() {
    let configs = vec![config_file("a", &["ghost"])];
    match build_tree(&vec!["a".to_string()], &configs) {
        Err(Error::ConfigNotFound(n)) => assert_eq!(n, "ghost"),
        other => panic!("expected ConfigNotFound, got {:?}", other),
    }
}

#[test]
fn cycle_is_detected() {
    let configs = vec![config_file("a", &["b"]), config_file("b", &["a"])];
    match build_tree(&vec!["a".to_string()], &configs) {
        Err(Error::CycleDetected(_)) => {},
        other => panic!("expected CycleDetected, got {:?}", other),
    }
}

#[test]
fn self_cycle_is_detected() {
    let configs = vec![config_file("a", &["a"])];
    match build_tree(&vec!["a".to_string()], &configs) {
        Err(Error::CycleDetected(n)) => assert_eq!(n, "a"),
        other => panic!("expected CycleDetected, got {:?}", other),
    }
}

#[test]
fn scheduler_runs_children_before_parent() {
    let configs = vec![config_file("a", &["b"]), config_file("b", &[])];
    let nodes = build_tree(&vec!["a".to_string()], &configs).unwrap();
    let mut sched = Scheduler::new(nodes);
    let mut order: Vec<String> = Vec::new();
    let mut ticks = 0;
    while !sched.all_done() {
        ticks += 1;
        assert!(ticks <= 10, "scheduler did not terminate");
        sched.make_ready();
        let started = sched.start_tasks();
        for i in started {
            order.push(sched.task_id(i));
            sched.mark_done(i);
        }
    }
    assert_eq!(order, vec!["b".to_string(), "a".to_string()]);
}

#[test]
fn scheduler_terminates_within_measure_bound() {
    // a diamond: d depends on b and c, both depend on a
    let configs = vec![
        config_file("d", &["b", "c"]),
        config_file("b", &["a"]),
        config_file("c", &["a"]),
        config_file("a", &[]),
    ];
    let nodes = build_tree(&vec!["d".to_string()], &configs).unwrap();
    let n = nodes.len();
    let mut sched = Scheduler::new(nodes);
    let mut transitions = 0;
    while !sched.all_done() {
        sched.make_ready();
        let started = sched.start_tasks();
        for i in &started {
            sched.mark_done(*i);
        }
        transitions += 1;
        assert!(transitions <= 3 * n, "too many ticks");
    }
    assert_eq!(n, 4);
}

#[test]
fn statuses_follow_the_lifecycle() {
    let configs = vec![config_file("a", &["b"]), config_file("b", &[])];
    let nodes = build_tree(&vec!["a".to_string()], &configs).unwrap();
    let mut sched = Scheduler::new(nodes);
    assert_eq!(sched.status_of(0), Status::Pending);
    assert_eq!(sched.status_of(1), Status::Pending);
    sched.make_ready();
    assert_eq!(sched.status_of(0), Status::Ready);
    assert_eq!(sched.status_of(1), Status::Pending);
    let started = sched.start_tasks();
    assert_eq!(started, vec![0]);
    assert_eq!(sched.status_of(0), Status::Running);
    sched.mark_done(0);
    assert_eq!(sched.status_of(0), Status::Done);
    sched.make_ready();
    assert_eq!(sched.status_of(1), Status::Ready);
    let started = sched.start_tasks();
    assert_eq!(started, vec![1]);
    sched.mark_done(1);
    assert!(sched.all_done());
}

#[test]
fn resolve_scheduler_is_build_tree_plus_lifecycle() {
    let configs = vec![config_file("a", &["b"]), config_file("b", &[])];
    let mut sched = resolve_scheduler(&vec!["a".to_string()], &configs).unwrap();
    assert_eq!(sched.len(), 2);
    assert_eq!(sched.task_id(0), "b");
    assert_eq!(sched.task_id(1), "a");
    sched.make_ready();
    assert_eq!(sched.start_tasks(), vec![0]);
}
