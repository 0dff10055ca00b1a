//! Task specs, task states, and the DAG over them.

use nexus::dag::{DagError, TaskDag};
use nexus::ids::{IdMap, IdSet};
use nexus::task::{TaskSpec, TaskState};

fn states_of(dag: &TaskDag) -> IdMap<TaskState> {
    let mut states: IdMap<TaskState> = IdMap::new();
    for id in dag.tasks.keys() {
        states.insert(id, TaskState::Pending);
    }
    states
}

#[test]
fn rejects_duplicate_ids() {
    let err = TaskDag::build(vec![TaskSpec::new("a", "x"), TaskSpec::new("a", "y")]).unwrap_err();
    assert_eq!(err, DagError::DuplicateId("a".into()));
}

#[test]
fn rejects_unknown_dependency() {
    let err = TaskDag::build(vec![TaskSpec::new("a", "x").after("ghost")]).unwrap_err();
    assert!(matches!(err, DagError::UnknownDependency { .. }));
}

#[test]
fn rejects_cycles() {
    let err = TaskDag::build(vec![
        TaskSpec::new("a", "x").after("b"),
        TaskSpec::new("b", "y").after("a"),
    ])
    .unwrap_err();
    assert!(matches!(err, DagError::Cycle(_)));
}

#[test]
fn ready_set_respects_dependencies() {
    let dag = TaskDag::build(vec![
        TaskSpec::new("a", "x"),
        TaskSpec::new("b", "y").after("a"),
        TaskSpec::new("c", "z"),
    ])
    .unwrap();
    let mut states = states_of(&dag);

    assert_eq!(dag.ready(&states), vec!["a".to_string(), "c".to_string()]);

    states.insert(
        "a".into(),
        TaskState::Completed {
            output: "done".into(),
        },
    );
    states.insert("c".into(), TaskState::Running { attempt: 1 });
    assert_eq!(dag.ready(&states), vec!["b".to_string()]);
}

#[test]
fn transitive_dependents_compute_blast_radius() {
    let dag = TaskDag::build(vec![
        TaskSpec::new("a", ""),
        TaskSpec::new("b", "").after("a"),
        TaskSpec::new("c", "").after("b"),
        TaskSpec::new("d", ""),
    ])
    .unwrap();
    let blast = dag.transitive_dependents(&"a".to_string());
    assert_eq!(blast.len(), 2);
    assert!(blast.contains("b") && blast.contains("c"));
}

#[test]
fn messages_of_dag_errors() {
    let duplicate =
        TaskDag::build(vec![TaskSpec::new("a", ""), TaskSpec::new("a", "")]).unwrap_err();
    assert_eq!(duplicate.message(), "duplicate task id: a");
    let unknown = TaskDag::build(vec![TaskSpec::new("a", "").after("ghost")]).unwrap_err();
    assert_eq!(unknown.message(), "task a depends on unknown task ghost");
    let cycle = TaskDag::build(vec![TaskSpec::new("a", "").after("a")]).unwrap_err();
    assert_eq!(cycle.message(), "dependency cycle involving task a");
}

#[test]
fn a_cycle_error_names_a_task_on_the_cycle() {
    let err = TaskDag::build(vec![
        TaskSpec::new("after_loop", "").after("loop_b"),
        TaskSpec::new("before_loop", ""),
        TaskSpec::new("loop_a", "").after("loop_b").after("before_loop"),
        TaskSpec::new("loop_b", "").after("loop_a"),
    ])
    .unwrap_err();
    assert!(matches!(&err, DagError::Cycle(id) if id == "loop_a" || id == "loop_b"));
}

#[test]
fn a_duplicate_id_is_found_before_an_unknown_dependency() {
    let err = TaskDag::build(vec![
        TaskSpec::new("a", "").after("ghost"),
        TaskSpec::new("b", ""),
        TaskSpec::new("b", ""),
        TaskSpec::new("a", ""),
    ])
    .unwrap_err();
    assert_eq!(err, DagError::DuplicateId("b".into()));
}

#[test]
fn the_first_unknown_entry_of_a_task_is_named() {
    let err = TaskDag::build(vec![
        TaskSpec::new("a", ""),
        TaskSpec::new("b", "").after("a").after("ghost1").after("b").after("ghost2"),
    ])
    .unwrap_err();
    assert_eq!(
        err,
        DagError::UnknownDependency {
            task: "b".into(),
            dep: "ghost1".into()
        }
    );
}

#[test]
fn a_dag_can_be_cloned() {
    let dag = TaskDag::build(vec![
        TaskSpec::new("a", "p").budget(5),
        TaskSpec::new("b", "").after("a"),
    ])
    .unwrap();
    let copy = dag.clone();
    assert_eq!(copy.tasks.keys(), dag.tasks.keys());
    assert_eq!(copy.tasks.get("a").unwrap().token_budget, 5);
    assert_eq!(copy.tasks.get("a").unwrap().payload, "p");
    assert_eq!(copy.dependents.get("a"), dag.dependents.get("a"));
    assert_eq!(copy.transitive_dependents("a").len(), 1);
}

#[test]
fn an_empty_dag_is_valid() {
    let dag = TaskDag::build(Vec::new()).unwrap();
    assert_eq!(dag.tasks.len(), 0);
    assert!(dag.ready(&IdMap::new()).is_empty());
    assert_eq!(dag.transitive_dependents("ghost").len(), 0);
}

#[test]
fn a_dependency_named_twice_is_linked_twice() {
    let dag = TaskDag::build(vec![
        TaskSpec::new("a", ""),
        TaskSpec::new("b", "").after("a").after("a"),
    ])
    .unwrap();
    assert_eq!(
        dag.dependents.get("a").unwrap(),
        &vec!["b".to_string(), "b".to_string()]
    );
    assert!(dag.dependents.get("b").is_none());
    assert_eq!(dag.transitive_dependents("a").len(), 1);
    let mut states = states_of(&dag);
    assert_eq!(dag.ready(&states), vec!["a".to_string()]);
    states.insert(
        "a".into(),
        TaskState::Completed {
            output: String::new(),
        },
    );
    assert_eq!(dag.ready(&states), vec!["b".to_string()]);
}

#[test]
fn the_blast_radius_of_a_diamond() {
    let dag = TaskDag::build(vec![
        TaskSpec::new("d", "").after("b").after("c"),
        TaskSpec::new("c", "").after("a"),
        TaskSpec::new("b", "").after("a"),
        TaskSpec::new("a", ""),
    ])
    .unwrap();
    assert_eq!(
        dag.transitive_dependents("a").to_vec(),
        vec!["b".to_string(), "c".to_string(), "d".to_string()]
    );
    assert!(!dag.transitive_dependents("a").contains("a"));
    assert_eq!(dag.transitive_dependents("d").len(), 0);
}

#[test]
fn a_spec_is_built_step_by_step() {
    let spec = TaskSpec::new("id", "payload");
    assert_eq!(spec.id, "id");
    assert_eq!(spec.payload, "payload");
    assert!(spec.depends_on.is_empty());
    assert_eq!(spec.token_budget, 100_000);
    assert_eq!(spec.max_attempts, 3);
    let spec = spec.after("x").after("y").budget(7).attempts(0);
    assert_eq!(spec.depends_on, vec!["x".to_string(), "y".to_string()]);
    assert_eq!(spec.token_budget, 7);
    assert_eq!(spec.max_attempts, 1);
    assert_eq!(spec.attempts(5).clone().max_attempts, 5);
}

#[test]
fn terminal_states() {
    assert!(!TaskState::Pending.is_terminal());
    assert!(!TaskState::Running { attempt: 1 }.is_terminal());
    assert!(!TaskState::Blocked {
        question: "?".into()
    }
    .is_terminal());
    assert!(TaskState::Completed {
        output: "o".into()
    }
    .is_terminal());
    assert!(TaskState::Failed { error: "e".into() }.is_terminal());
    assert!(TaskState::Cancelled {
        reason: "r".into()
    }
    .is_terminal());
}

#[test]
fn id_maps_keep_the_order_of_str() {
    let words = [
        "b", "", "a", "ab", "Z", "\u{e9}t\u{e9}", "z", "aa", "\u{10348}", "a",
    ];
    let mut map: IdMap<u64> = IdMap::new();
    let mut set = IdSet::new();
    for (i, word) in words.iter().enumerate() {
        map.insert(word.to_string(), i as u64);
        let fresh = !words[..i].contains(word);
        assert_eq!(set.insert(word.to_string()), fresh);
    }
    let mut sorted: Vec<String> = words.iter().map(|w| w.to_string()).collect();
    sorted.sort();
    sorted.dedup();
    assert_eq!(map.keys(), sorted);
    assert_eq!(set.to_vec(), sorted);
    assert_eq!(map.len(), 9);
    assert!(!map.is_empty());
    // The second binding of "a" is in place of the first.
    assert_eq!(map.get("a"), Some(&9));
    assert_eq!(map.remove("a"), Some(9));
    assert_eq!(map.remove("a"), None);
    assert!(!map.contains_key("a") && map.contains_key("aa"));
    assert_eq!(map.len(), 8);
}
