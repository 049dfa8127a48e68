use orchestrator::Program;
use orchestrator::RunSession;
use orchestrator::action_steps;
use orchestrator::ActionStep;
use orchestrator::order_candidates;
use orchestrator::plan_run;

fn program(name: &str, dependencies: &[&str], has_package_manifest: bool) -> Program {
    Program {
        name: name.to_string(),
        dependencies: dependencies.iter().map(|d| d.to_string()).collect(),
        has_package_manifest,
    }
}

fn order_names(programs: &Vec<Program>) -> Vec<String> {
    let plan = plan_run(programs);
    plan.order.iter().map(|&i| programs[i].name.clone()).collect()
}

#[test]
fn pinned_first_candidate_order() {
    let names = vec!["zeta".to_string(), "alpha".to_string(), "bootstrap".to_string()];
    let ordered = order_candidates(names, "bootstrap");
    assert_eq!(ordered, vec!["bootstrap", "alpha", "zeta"]);
}

#[test]
fn candidate_order_keeps_every_name() {
    let names = vec!["b".to_string(), "a".to_string(), "b".to_string()];
    let ordered = order_candidates(names, "a");
    assert_eq!(ordered, vec!["a", "b", "b"]);
}

#[test]
fn absent_pin_sorts_plainly() {
    let names = vec!["b".to_string(), "a".to_string(), "c".to_string()];
    let ordered = order_candidates(names, "zzz");
    assert_eq!(ordered, vec!["a", "b", "c"]);
}

#[test]
fn diamond_runs_shared_dependency_once() {
    let programs = vec![
        program("p", &["a", "b"], false),
        program("a", &["c"], false),
        program("b", &["c"], false),
        program("c", &[], false),
    ];
    let names = order_names(&programs);
    assert_eq!(names, vec!["c", "a", "b", "p"]);
    assert_eq!(names.iter().filter(|n| n.as_str() == "c").count(), 1);
    let plan = plan_run(&programs);
    assert!(plan.diagnostics.is_empty());
    assert!(plan.cycles.is_empty());
}

#[test]
fn every_program_exactly_once() {
    let programs = vec![
        program("x", &["y"], false),
        program("y", &[], false),
        program("z", &["x", "y"], false),
    ];
    let names = order_names(&programs);
    assert_eq!(names.len(), 3);
    for wanted in ["x", "y", "z"] {
        assert_eq!(names.iter().filter(|n| n.as_str() == wanted).count(), 1);
    }
    assert_eq!(names, vec!["y", "x", "z"]);
}

#[test]
fn unresolved_dependency_still_runs() {
    let programs = vec![program("a", &["missing"], false), program("b", &[], false)];
    let plan = plan_run(&programs);
    let names: Vec<String> = plan.order.iter().map(|&i| programs[i].name.clone()).collect();
    assert_eq!(names, vec!["a", "b"]);
    assert_eq!(plan.diagnostics.len(), 1);
    assert_eq!(plan.diagnostics[0].program, "a");
    assert_eq!(plan.diagnostics[0].dependency, "missing");
}

#[test]
fn one_diagnostic_per_unresolved_edge() {
    let programs = vec![
        program("a", &["ghost", "phantom"], false),
        program("b", &["ghost"], false),
    ];
    let plan = plan_run(&programs);
    assert_eq!(plan.order.len(), 2);
    assert_eq!(plan.diagnostics.len(), 3);
    let mut edges: Vec<(String, String)> = plan
        .diagnostics
        .iter()
        .map(|d| (d.program.clone(), d.dependency.clone()))
        .collect();
    edges.sort();
    assert_eq!(
        edges,
        vec![
            ("a".to_string(), "ghost".to_string()),
            ("a".to_string(), "phantom".to_string()),
            ("b".to_string(), "ghost".to_string()),
        ]
    );
}

#[test]
fn traversal_is_deterministic() {
    let build = || {
        vec![
            program("p", &["a", "b"], false),
            program("a", &["c"], true),
            program("b", &["c", "nowhere"], false),
            program("c", &[], false),
        ]
    };
    let first = plan_run(&build());
    let second = plan_run(&build());
    assert_eq!(first.order, second.order);
    let firsts: Vec<(String, String)> = first
        .diagnostics
        .iter()
        .map(|d| (d.program.clone(), d.dependency.clone()))
        .collect();
    let seconds: Vec<(String, String)> = second
        .diagnostics
        .iter()
        .map(|d| (d.program.clone(), d.dependency.clone()))
        .collect();
    assert_eq!(firsts, seconds);
    assert_eq!(first.cycles, second.cycles);
}

#[test]
fn skipped_program_never_blocks_dependents() {
    // A record whose manifest could not be read never becomes a candidate;
    // a program that still declares it as a dependency runs anyway.
    let programs = vec![program("b", &["skipped"], false)];
    let plan = plan_run(&programs);
    let names: Vec<String> = plan.order.iter().map(|&i| programs[i].name.clone()).collect();
    assert_eq!(names, vec!["b"]);
    assert!(!names.contains(&"skipped".to_string()));
    assert_eq!(plan.diagnostics.len(), 1);
    assert_eq!(plan.diagnostics[0].dependency, "skipped");
}

#[test]
fn session_records_outcomes_in_execution_order() {
    let programs = vec![program("a", &[], false), program("b", &["a"], false)];
    let outcomes = [true, false];
    let mut session = RunSession::begin(programs);
    let mut handed_out: Vec<String> = Vec::new();
    let mut step: usize = 0;
    while let Some((name, has_pm)) = session.next_program() {
        assert!(!has_pm);
        handed_out.push(name);
        session.record_outcome(outcomes[step]);
        step += 1;
    }
    assert!(session.is_finished());
    assert_eq!(handed_out, vec!["a", "b"]);
    assert_eq!(session.results.len(), 2);
    assert_eq!(session.results[0].program, "a");
    assert!(session.results[0].success);
    assert_eq!(session.results[1].program, "b");
    assert!(!session.results[1].success);
}

#[test]
fn action_steps_follow_the_manifest() {
    let with_manifest = program("a", &[], true);
    let without_manifest = program("b", &[], false);
    assert_eq!(
        action_steps(&with_manifest),
        vec![ActionStep::Install, ActionStep::Update, ActionStep::Test]
    );
    assert_eq!(
        action_steps(&without_manifest),
        vec![ActionStep::Update, ActionStep::Test]
    );
}

#[test]
fn cycle_edge_is_skipped_and_recorded() {
    let programs = vec![program("a", &["b"], false), program("b", &["a"], false)];
    let plan = plan_run(&programs);
    let names: Vec<String> = plan.order.iter().map(|&i| programs[i].name.clone()).collect();
    assert_eq!(names, vec!["b", "a"]);
    assert_eq!(plan.cycles, vec!["a".to_string()]);
}

#[test]
fn empty_candidate_set() {
    let programs: Vec<Program> = Vec::new();
    let plan = plan_run(&programs);
    assert!(plan.order.is_empty());
    assert!(plan.diagnostics.is_empty());
    assert!(plan.cycles.is_empty());
}
