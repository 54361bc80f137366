use std::future;
use std::future::Ready;
use when2task::{Blueprint, BlueprintError, Dependency, Task, TaskId, TaskMap};

type Work = Ready<Result<(), ()>>;

fn create_dummy_task() -> Task<Work> {
    let future = future::ready(Ok(()));
    Task::new(future, Dependency::from_ids(&vec![]))
}

#[test]
fn blueprint_test_simple_blueprint() {
    let mut tasks = TaskMap::new();
    let task1 = create_dummy_task();
    let task2 = create_dummy_task();

    let id1 = *task1.id();
    let id2 = *task2.id();

    tasks.insert(task1);
    tasks.insert(task2);

    let blueprint = Blueprint::from_tasks(&tasks).unwrap();
    assert_eq!(blueprint.step_count(), 1);
    assert_eq!(blueprint.tasks_at_step(0).unwrap().len(), 2);
    assert!(blueprint.tasks_at_step(0).unwrap().contains(&id1));
    assert!(blueprint.tasks_at_step(0).unwrap().contains(&id2));
}

#[test]
fn blueprint_test_sequential_blueprint() {
    let mut tasks = TaskMap::new();
    let task1 = create_dummy_task();
    let id1 = *task1.id();

    let future2 = future::ready(Ok(()));
    let task2 = Task::new(future2, Dependency::from_ids(&vec![id1]));
    let id2 = *task2.id();

    tasks.insert(task1);
    tasks.insert(task2);

    let blueprint = Blueprint::from_tasks(&tasks).unwrap();
    assert_eq!(blueprint.step_count(), 2);
    assert_eq!(blueprint.tasks_at_step(0).unwrap().len(), 1);
    assert_eq!(blueprint.tasks_at_step(1).unwrap().len(), 1);
    assert_eq!(blueprint.tasks_at_step(0).unwrap()[0], id1);
    assert_eq!(blueprint.tasks_at_step(1).unwrap()[0], id2);
}

#[test]
fn w2t_blueprint_test_simple_blueprint() {
    let mut tasks = TaskMap::new();
    let task1 = Task::new_independent(future::ready(Ok::<(), ()>(())));
    let task2 = Task::new_independent(future::ready(Ok::<(), ()>(())));

    tasks.insert(task1);
    tasks.insert(task2);

    let blueprint = Blueprint::from_tasks(&tasks).unwrap();
    assert_eq!(blueprint.step_count(), 1);
    assert_eq!(blueprint.tasks_at_step(0).unwrap().len(), 2);
}

#[test]
fn w2t_blueprint_test_sequential_blueprint() {
    let mut tasks = TaskMap::new();
    let task1 = Task::new_independent(future::ready(Ok::<(), ()>(())));
    let id1 = *task1.id();

    let task2 = Task::new(future::ready(Ok(())), Dependency::from_ids(&vec![id1]));

    tasks.insert(task1);
    tasks.insert(task2);

    let blueprint = Blueprint::from_tasks(&tasks).unwrap();
    assert_eq!(blueprint.step_count(), 2);
    assert_eq!(blueprint.tasks_at_step(0).unwrap().len(), 1);
    assert_eq!(blueprint.tasks_at_step(1).unwrap().len(), 1);
}

#[test]
fn test_step_for_task_lookup() {
    let mut tasks = TaskMap::new();
    let task1 = create_dummy_task();
    let id1 = *task1.id();
    let task2 = Task::new(future::ready(Ok(())), Dependency::from_ids(&vec![id1]));
    let id2 = *task2.id();

    tasks.insert(task1);
    tasks.insert(task2);

    let blueprint = Blueprint::from_tasks(&tasks).unwrap();
    assert_eq!(blueprint.step_for_task(&id1), Some(0));
    assert_eq!(blueprint.step_for_task(&id2), Some(1));
    assert_eq!(blueprint.step_for_task(&TaskId::generate()), None);
    assert_eq!(blueprint.tasks_at_step(2), None);
}

#[test]
fn test_missing_dependency_reported_pair() {
    let mut tasks = TaskMap::new();
    let task1 = create_dummy_task();
    let missing = TaskId::generate();
    let task2 = Task::new(future::ready(Ok(())), Dependency::from_ids(&vec![missing]));
    let id2 = *task2.id();

    tasks.insert(task1);
    tasks.insert(task2);

    match Blueprint::from_tasks(&tasks) {
        Err(BlueprintError::MissingDependency(t, d)) => {
            assert_eq!(t, id2);
            assert_eq!(d, missing);
        }
        _ => panic!("Expected missing dependency error"),
    }
}

#[test]
fn test_cycle_reports_both_tasks() {
    let id_a = TaskId::generate();
    let id_b = TaskId::generate();

    let mut tasks = TaskMap::new();
    tasks.insert(Task::with_id(
        id_a,
        future::ready(Ok::<(), ()>(())),
        Dependency::Task(id_b),
    ));
    tasks.insert(Task::with_id(
        id_b,
        future::ready(Ok(())),
        Dependency::Task(id_a),
    ));
    let unrelated = Task::new_independent(future::ready(Ok(())));
    let id_c = *unrelated.id();
    tasks.insert(unrelated);

    match Blueprint::from_tasks(&tasks) {
        Err(BlueprintError::CircularDependency(ids)) => {
            assert_eq!(ids.len(), 2);
            assert!(ids.contains(&id_a));
            assert!(ids.contains(&id_b));
            assert!(!ids.contains(&id_c));
        }
        _ => panic!("Expected circular dependency error"),
    }
}

#[test]
fn test_cycle_reports_downstream_of_cycle() {
    let id_a = TaskId::generate();
    let id_b = TaskId::generate();

    let mut tasks = TaskMap::new();
    tasks.insert(Task::with_id(
        id_a,
        future::ready(Ok::<(), ()>(())),
        Dependency::Task(id_b),
    ));
    tasks.insert(Task::with_id(
        id_b,
        future::ready(Ok(())),
        Dependency::Task(id_a),
    ));
    // waits on the cycle without being part of it: reported all the same
    let downstream = Task::new(future::ready(Ok(())), Dependency::Task(id_a));
    let id_d = *downstream.id();
    tasks.insert(downstream);

    match Blueprint::from_tasks(&tasks) {
        Err(BlueprintError::CircularDependency(ids)) => {
            assert_eq!(ids.len(), 3);
            assert!(ids.contains(&id_a));
            assert!(ids.contains(&id_b));
            assert!(ids.contains(&id_d));
        }
        _ => panic!("Expected circular dependency error"),
    }
}

#[test]
fn test_self_dependency_is_a_cycle() {
    let id_a = TaskId::generate();
    let mut tasks = TaskMap::new();
    tasks.insert(Task::with_id(
        id_a,
        future::ready(Ok::<(), ()>(())),
        Dependency::Task(id_a),
    ));

    match Blueprint::from_tasks(&tasks) {
        Err(BlueprintError::CircularDependency(ids)) => {
            assert_eq!(ids.len(), 1);
            assert!(ids.contains(&id_a));
        }
        _ => panic!("Expected circular dependency error"),
    }
}

#[test]
fn test_step_distinct_ids() {
    let mut tasks = TaskMap::new();
    tasks.insert(create_dummy_task());
    tasks.insert(create_dummy_task());
    let blueprint = Blueprint::from_tasks(&tasks).unwrap();
    assert!(blueprint.steps[0].has_distinct_ids());
}
