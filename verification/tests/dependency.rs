use when2task::{Dependency, IdSet, TaskId};

fn create_test_task_ids() -> (TaskId, TaskId, TaskId) {
    (TaskId::generate(), TaskId::generate(), TaskId::generate())
}

#[test]
fn test_dependency_satisfaction() {
    let (task1, task2, _) = create_test_task_ids();

    // Test Empty - always satisfied
    let none_dep = Dependency::Empty;
    assert!(none_dep.is_satisfied(&IdSet::new()));

    let mut completed = IdSet::new();
    completed.insert(task1);
    assert!(none_dep.is_satisfied(&completed));

    // Test Task - satisfied when task is completed
    let task_dep = Dependency::Task(task1);
    assert!(task_dep.is_satisfied(&completed));
    assert!(!task_dep.is_satisfied(&IdSet::new()));

    // Test different task not satisfied
    completed.clear();
    completed.insert(task2);
    assert!(!task_dep.is_satisfied(&completed));
}

#[test]
fn test_dependency_combine() {
    let (task1, task2, _) = create_test_task_ids();
    let combine_dep = Dependency::Combine(
        Box::new(Dependency::Task(task1)),
        Box::new(Dependency::Task(task2)),
    );

    // Both tasks completed - satisfied
    let mut completed = IdSet::new();
    completed.insert(task1);
    completed.insert(task2);
    assert!(combine_dep.is_satisfied(&completed));

    // Only one task completed - not satisfied
    completed.remove(&task2);
    assert!(!combine_dep.is_satisfied(&completed));

    // No tasks completed - not satisfied
    assert!(!combine_dep.is_satisfied(&IdSet::new()));

    // Test combining with Empty
    let none_combine = Dependency::Combine(
        Box::new(Dependency::Empty),
        Box::new(Dependency::Task(task1)),
    );

    completed.clear();
    completed.insert(task1);
    assert!(none_combine.is_satisfied(&completed));
    assert!(!none_combine.is_satisfied(&IdSet::new()));
}

#[test]
fn test_dependency_and_chaining() {
    let (task1, task2, task3) = create_test_task_ids();

    // Test basic and() method
    let combined = Dependency::Task(task1).and(Dependency::Task(task2));
    match combined {
        Dependency::Combine(a, b) => {
            assert!(matches!(*a, Dependency::Task(id) if id == task1));
            assert!(matches!(*b, Dependency::Task(id) if id == task2));
        }
        _ => panic!("Expected Combine variant"),
    }

    // Test chaining multiple dependencies
    let chained = Dependency::Task(task1)
        .and(Dependency::Task(task2))
        .and(Dependency::Task(task3));

    let mut completed = IdSet::new();
    completed.insert(task1);
    completed.insert(task2);
    completed.insert(task3);

    assert!(chained.is_satisfied(&completed));

    // Remove one task and it should not be satisfied
    completed.remove(&task3);
    assert!(!chained.is_satisfied(&completed));
}

#[test]
fn test_dependency_iter() {
    // Test Empty - never returns anything
    let none_dep = Dependency::Empty;
    let mut iter = none_dep.iter();
    assert_eq!(iter.next(), None);

    // Test Task - returns task ID once
    let task_id = TaskId::generate();
    let task_dep = Dependency::Task(task_id);
    let mut iter = task_dep.iter();

    assert_eq!(iter.next(), Some(task_id));
    assert_eq!(iter.next(), None);

    // Test Combine - returns task IDs from left then right
    let (task1, task2, _) = create_test_task_ids();
    let combine_dep = Dependency::Combine(
        Box::new(Dependency::Task(task1)),
        Box::new(Dependency::Task(task2)),
    );

    let collected: Vec<TaskId> = combine_dep.to_ids();
    assert_eq!(collected.len(), 2);
    assert!(collected.contains(&task1));
    assert!(collected.contains(&task2));
}

#[test]
fn test_iter_collect() {
    let (task1, task2, task3) = create_test_task_ids();

    // Test collecting from Task
    let task_dep = Dependency::Task(task1);
    let collected: Vec<TaskId> = task_dep.to_ids();
    assert_eq!(collected.len(), 1);
    assert_eq!(collected[0], task1);

    // Test collecting from nested Combine
    let nested = Dependency::Combine(
        Box::new(Dependency::Combine(
            Box::new(Dependency::Task(task1)),
            Box::new(Dependency::Task(task2)),
        )),
        Box::new(Dependency::Task(task3)),
    );
    let collected: Vec<TaskId> = nested.to_ids();
    assert_eq!(collected.len(), 3);
    assert!(collected.contains(&task1));
    assert!(collected.contains(&task2));
    assert!(collected.contains(&task3));
}

#[test]
fn test_iter_for_loop() {
    let (task1, task2, _) = create_test_task_ids();
    let combine_dep = Dependency::Combine(
        Box::new(Dependency::Task(task1)),
        Box::new(Dependency::Task(task2)),
    );

    let mut count = 0;
    let mut found_tasks = Vec::new();

    let mut iter = combine_dep.iter();
    while let Some(task_id) = iter.next() {
        found_tasks.push(task_id);
        count += 1;
    }

    assert_eq!(count, 2);
    assert!(found_tasks.contains(&task1));
    assert!(found_tasks.contains(&task2));
}

#[test]
fn test_iter_reusability() {
    let task_id = TaskId::generate();
    let dep = Dependency::Task(task_id);

    // Iterating does not consume the dependency - can be done multiple times
    let first_iter: Vec<TaskId> = dep.to_ids();
    assert_eq!(first_iter, vec![task_id]);

    // Can iterate again without consuming the original dependency
    let second_iter: Vec<TaskId> = dep.to_ids();
    assert_eq!(second_iter, vec![task_id]);

    // Original dependency is unchanged
    assert!(matches!(dep, Dependency::Task(id) if id == task_id));
}

#[test]
fn test_dependency_from_conversions() {
    let (task1, task2, task3) = create_test_task_ids();

    // Test From<TaskId>
    let dep: Dependency = task1.into();
    match dep {
        Dependency::Task(id) => assert_eq!(id, task1),
        _ => panic!("Expected Task variant"),
    }

    // Test from a collection of ids - empty
    let empty_deps: Dependency = Dependency::from_ids(&Vec::<TaskId>::new());
    assert!(matches!(empty_deps, Dependency::Empty));

    // Test from a collection of ids - single item
    let single_dep: Dependency = Dependency::from_ids(&vec![task1]);
    match single_dep {
        Dependency::Combine(none_box, task_box) => {
            assert!(matches!(*none_box, Dependency::Empty));
            assert!(matches!(*task_box, Dependency::Task(id) if id == task1));
        }
        _ => panic!("Expected Combine variant"),
    }

    // Test from a collection of ids - multiple items (all must be satisfied)
    let multi_dep: Dependency = Dependency::from_ids(&vec![task1, task2, task3]);
    let mut completed = IdSet::new();
    completed.insert(task1);
    completed.insert(task2);
    completed.insert(task3);

    assert!(multi_dep.is_satisfied(&completed));

    completed.remove(&task2);
    assert!(!multi_dep.is_satisfied(&completed));
}

#[test]
fn test_dependency_traits_and_complex_scenarios() {
    let (task1, task2, task3) = create_test_task_ids();

    // Test Default trait
    let default_dep = Dependency::default();
    assert!(matches!(default_dep, Dependency::Empty));
    assert!(default_dep.is_satisfied(&IdSet::new()));

    // Test Clone trait
    let original = Dependency::Task(task1);
    let cloned = original.clone();
    match (original, cloned) {
        (Dependency::Task(id1), Dependency::Task(id2)) => assert_eq!(id1, id2),
        _ => panic!("Expected both to be Task variants"),
    }

    // Test Debug trait
    let dep = Dependency::Task(task1);
    let debug_str = format!("{dep:?}");
    assert!(debug_str.contains("Task"));

    // Test complex chained dependency scenarios
    let complex_dep = Dependency::Task(task1)
        .and(Dependency::Task(task2))
        .and(Dependency::Task(task3));

    let mut completed = IdSet::new();

    // Progressive completion testing
    assert!(!complex_dep.is_satisfied(&completed));

    completed.insert(task1);
    assert!(!complex_dep.is_satisfied(&completed));

    completed.insert(task2);
    assert!(!complex_dep.is_satisfied(&completed));

    completed.insert(task3);
    assert!(complex_dep.is_satisfied(&completed));
}

#[test]
fn test_id_set_membership_and_len() {
    let (task1, task2, _) = create_test_task_ids();
    let mut s = IdSet::new();
    assert!(s.is_empty());
    assert_eq!(s.len(), 0);
    s.insert(task1);
    s.insert(task1);
    assert_eq!(s.len(), 1);
    assert!(s.contains(&task1));
    assert!(!s.contains(&task2));
    s.insert(task2);
    assert_eq!(s.len(), 2);
    s.remove(&task1);
    assert_eq!(s.len(), 1);
    assert!(!s.contains(&task1));
    assert!(s.contains(&task2));
}
