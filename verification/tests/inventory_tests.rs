use task_inventory::inventory::Inventory;
use task_inventory::order::name_le_str;
use task_inventory::tasks::{StaticSource, Task, TaskId, TaskSourceKind, WorktreeId};

fn make_source(type_id: u64, names: &[&str]) -> StaticSource {
    let mut tasks = Vec::new();
    for (i, name) in names.iter().enumerate() {
        tasks.push(Task::new(
            TaskId::new(format!("task_{}_{}", i, name)),
            name.to_string(),
        ));
    }
    StaticSource::new(type_id, tasks)
}

fn list_task_names(
    inventory: &Inventory,
    path: Option<&str>,
    worktree: Option<WorktreeId>,
    lru: bool,
) -> Vec<String> {
    inventory
        .list_tasks(path, worktree, lru)
        .into_iter()
        .map(|(_, task)| task.name.clone())
        .collect()
}

fn register_task_used(inventory: &mut Inventory, task_name: &str) {
    let (_, task) = inventory
        .list_tasks(None, None, false)
        .into_iter()
        .find(|(_, task)| task.name == task_name)
        .unwrap_or_else(|| panic!("Failed to find task with name {task_name}"));
    inventory.task_scheduled(task.id.clone());
}

#[test]
fn test_task_list_sorting() {
    let mut inventory = Inventory::new();
    let initial_tasks = list_task_names(&inventory, None, None, true);
    assert!(
        initial_tasks.is_empty(),
        "No tasks expected for empty inventory, but got {initial_tasks:?}"
    );
    let initial_tasks = list_task_names(&inventory, None, None, false);
    assert!(
        initial_tasks.is_empty(),
        "No tasks expected for empty inventory, but got {initial_tasks:?}"
    );

    inventory.add_static_source(TaskSourceKind::UserInput, make_source(1, &["3_task"]));
    inventory.add_static_source(
        TaskSourceKind::UserInput,
        make_source(2, &["1_task", "2_task", "1_a_task"]),
    );

    let expected_initial_state = [
        "1_a_task".to_string(),
        "1_task".to_string(),
        "2_task".to_string(),
        "3_task".to_string(),
    ];
    assert_eq!(
        list_task_names(&inventory, None, None, false),
        &expected_initial_state,
        "Task list without lru sorting, should be sorted alphanumerically"
    );
    assert_eq!(
        list_task_names(&inventory, None, None, true),
        &expected_initial_state,
        "Tasks with equal amount of usages should be sorted alphanumerically"
    );

    register_task_used(&mut inventory, "2_task");
    assert_eq!(
        list_task_names(&inventory, None, None, false),
        &expected_initial_state,
        "Task list without lru sorting, should be sorted alphanumerically"
    );
    assert_eq!(
        list_task_names(&inventory, None, None, true),
        vec![
            "2_task".to_string(),
            "1_a_task".to_string(),
            "1_task".to_string(),
            "3_task".to_string()
        ],
    );

    register_task_used(&mut inventory, "1_task");
    register_task_used(&mut inventory, "1_task");
    register_task_used(&mut inventory, "1_task");
    register_task_used(&mut inventory, "3_task");
    assert_eq!(
        list_task_names(&inventory, None, None, false),
        &expected_initial_state,
        "Task list without lru sorting, should be sorted alphanumerically"
    );
    assert_eq!(
        list_task_names(&inventory, None, None, true),
        vec![
            "3_task".to_string(),
            "1_task".to_string(),
            "2_task".to_string(),
            "1_a_task".to_string(),
        ],
    );

    inventory.add_static_source(
        TaskSourceKind::UserInput,
        make_source(3, &["10_hello", "11_hello"]),
    );
    let expected_updated_state = [
        "1_a_task".to_string(),
        "1_task".to_string(),
        "2_task".to_string(),
        "3_task".to_string(),
        "10_hello".to_string(),
        "11_hello".to_string(),
    ];
    assert_eq!(
        list_task_names(&inventory, None, None, false),
        &expected_updated_state,
        "Task list without lru sorting, should be sorted alphanumerically"
    );
    assert_eq!(
        list_task_names(&inventory, None, None, true),
        vec![
            "3_task".to_string(),
            "1_task".to_string(),
            "2_task".to_string(),
            "1_a_task".to_string(),
            "10_hello".to_string(),
            "11_hello".to_string(),
        ],
    );

    register_task_used(&mut inventory, "11_hello");
    assert_eq!(
        list_task_names(&inventory, None, None, false),
        &expected_updated_state,
        "Task list without lru sorting, should be sorted alphanumerically"
    );
    assert_eq!(
        list_task_names(&inventory, None, None, true),
        vec![
            "11_hello".to_string(),
            "3_task".to_string(),
            "1_task".to_string(),
            "2_task".to_string(),
            "1_a_task".to_string(),
            "10_hello".to_string(),
        ],
    );
}

#[test]
fn todo_kb() {
    // Namespace conflicts between sources registered for the same path:
    // the occupied slot wins until it is removed.
    let mut inventory = Inventory::new();
    let path = "/project/tasks.json".to_string();
    inventory.add_static_source(
        TaskSourceKind::AbsPath {
            abs_path: path.clone(),
        },
        make_source(1, &["original"]),
    );
    assert!(inventory.take_changed(), "registration must notify");
    inventory.add_static_source(
        TaskSourceKind::AbsPath {
            abs_path: path.clone(),
        },
        make_source(2, &["conflicting"]),
    );
    assert!(
        !inventory.take_changed(),
        "duplicate registration must not notify"
    );
    assert_eq!(
        list_task_names(&inventory, None, None, false),
        vec!["original".to_string()]
    );

    // A worktree source rooted at the same absolute path is the same slot.
    inventory.add_static_source(
        TaskSourceKind::Worktree {
            id: WorktreeId { id: 7 },
            abs_path: path.clone(),
        },
        make_source(3, &["worktree_conflicting"]),
    );
    assert_eq!(
        list_task_names(&inventory, None, None, false),
        vec!["original".to_string()]
    );

    inventory.remove_local_static_source(&path);
    assert_eq!(list_task_names(&inventory, None, None, false), Vec::<String>::new());

    inventory.add_static_source(
        TaskSourceKind::AbsPath {
            abs_path: path.clone(),
        },
        make_source(2, &["conflicting"]),
    );
    assert!(inventory.take_changed(), "re-registration must notify");
    assert_eq!(
        list_task_names(&inventory, None, None, false),
        vec!["conflicting".to_string()]
    );
}

#[test]
fn numeric_prefix_ordering() {
    let mut inventory = Inventory::new();
    inventory.add_static_source(
        TaskSourceKind::UserInput,
        make_source(1, &["2_task", "10_task", "1_a_task"]),
    );
    assert_eq!(
        list_task_names(&inventory, None, None, false),
        vec![
            "1_a_task".to_string(),
            "2_task".to_string(),
            "10_task".to_string()
        ],
        "numeric comparison, not lexicographic"
    );
}

#[test]
fn name_order_comparisons() {
    assert!(name_le_str("2_task", "10_task"));
    assert!(!name_le_str("10_task", "2_task"));
    assert!(name_le_str("1_a_task", "1_task"));
    assert!(!name_le_str("1_task", "1_a_task"));
    // a name without a numeric prefix comes before one with a prefix
    assert!(name_le_str("alpha", "1_task"));
    assert!(!name_le_str("1_task", "alpha"));
    // plain lexicographic ordering without prefixes
    assert!(name_le_str("alpha", "beta"));
    assert!(!name_le_str("beta", "alpha"));
    // equal numeric values fall back to the raw name
    assert!(name_le_str("007x", "7x"));
    assert!(!name_le_str("7x", "007x"));
    // very long digit runs are compared by value, not by a machine word
    assert!(name_le_str("99999999999999999999_a", "100000000000000000000_a"));
    assert!(!name_le_str("100000000000000000000_a", "99999999999999999999_a"));
    assert!(name_le_str("same", "same"));
}

#[test]
fn end_to_end_two_sources() {
    let mut inventory = Inventory::new();
    inventory.add_static_source(
        TaskSourceKind::UserInput,
        make_source(1, &["1_task", "2_task", "1_a_task"]),
    );
    inventory.add_static_source(TaskSourceKind::UserInput, make_source(2, &["3_task"]));
    let combined = vec![
        "1_a_task".to_string(),
        "1_task".to_string(),
        "2_task".to_string(),
        "3_task".to_string(),
    ];
    assert_eq!(list_task_names(&inventory, None, None, false), combined);
    assert_eq!(list_task_names(&inventory, None, None, true), combined);

    register_task_used(&mut inventory, "2_task");
    assert_eq!(
        list_task_names(&inventory, None, None, true),
        vec![
            "2_task".to_string(),
            "1_a_task".to_string(),
            "1_task".to_string(),
            "3_task".to_string(),
        ]
    );
    assert_eq!(
        list_task_names(&inventory, None, None, false),
        combined,
        "non-recency listing is unchanged by usage"
    );
}

#[test]
fn history_stays_bounded() {
    let mut inventory = Inventory::new();
    for i in 0..5001u32 {
        inventory.task_scheduled(TaskId::new(format!("task_{i}")));
    }
    assert_eq!(inventory.last_scheduled_tasks.len(), 5000);
    // the oldest record was evicted first
    assert_eq!(inventory.last_scheduled_tasks[0].text, "task_1".to_string());
    assert_eq!(
        inventory.last_scheduled_tasks[4999].text,
        "task_5000".to_string()
    );
}

#[test]
fn worktree_filter_keeps_global_sources() {
    let mut inventory = Inventory::new();
    inventory.add_static_source(TaskSourceKind::UserInput, make_source(1, &["global"]));
    inventory.add_static_source(
        TaskSourceKind::Worktree {
            id: WorktreeId { id: 1 },
            abs_path: "/one".to_string(),
        },
        make_source(2, &["first"]),
    );
    inventory.add_static_source(
        TaskSourceKind::Worktree {
            id: WorktreeId { id: 2 },
            abs_path: "/two".to_string(),
        },
        make_source(3, &["second"]),
    );
    // worktree-scoped origins sort before global ones at equal recency
    assert_eq!(
        list_task_names(&inventory, None, Some(WorktreeId { id: 1 }), false),
        vec!["first".to_string(), "global".to_string()]
    );
    assert_eq!(
        list_task_names(&inventory, None, Some(WorktreeId { id: 2 }), false),
        vec!["second".to_string(), "global".to_string()]
    );
    assert_eq!(
        list_task_names(&inventory, None, None, false),
        vec![
            "first".to_string(),
            "second".to_string(),
            "global".to_string()
        ]
    );
}

#[test]
fn remove_worktree_sources_only_touches_that_worktree() {
    let mut inventory = Inventory::new();
    inventory.add_static_source(
        TaskSourceKind::Worktree {
            id: WorktreeId { id: 1 },
            abs_path: "/one".to_string(),
        },
        make_source(1, &["first"]),
    );
    inventory.add_static_source(
        TaskSourceKind::Worktree {
            id: WorktreeId { id: 2 },
            abs_path: "/two".to_string(),
        },
        make_source(2, &["second"]),
    );
    inventory.remove_worktree_sources(WorktreeId { id: 1 });
    assert_eq!(
        list_task_names(&inventory, None, None, false),
        vec!["second".to_string()]
    );
    // the removed worktree's slot is open again
    inventory.add_static_source(
        TaskSourceKind::Worktree {
            id: WorktreeId { id: 1 },
            abs_path: "/one".to_string(),
        },
        make_source(3, &["third"]),
    );
    assert_eq!(
        list_task_names(&inventory, None, None, false),
        vec!["second".to_string(), "third".to_string()]
    );
}

#[test]
fn typed_source_lookup() {
    let mut inventory = Inventory::new();
    assert!(inventory.source(1).is_none());
    inventory.add_static_source(TaskSourceKind::UserInput, make_source(1, &["one"]));
    inventory.add_static_source(TaskSourceKind::UserInput, make_source(2, &["two"]));
    inventory.add_static_source(TaskSourceKind::UserInput, make_source(2, &["three"]));
    let found = inventory.source(2).expect("source of type 2 is registered");
    // the first registration in order wins
    assert_eq!(found.tasks.len(), 1);
    assert_eq!(found.tasks[0].name, "two".to_string());
    assert!(inventory.source(9).is_none());
}

#[test]
fn last_scheduled_task_resolution() {
    let mut inventory = Inventory::new();
    assert!(inventory.last_scheduled_task().is_none());

    let path = "/tasks.json".to_string();
    inventory.add_static_source(
        TaskSourceKind::AbsPath {
            abs_path: path.clone(),
        },
        make_source(1, &["alpha", "beta"]),
    );
    register_task_used(&mut inventory, "beta");
    let last = inventory
        .last_scheduled_task()
        .expect("scheduled task must resolve");
    assert_eq!(last.name, "beta".to_string());

    // an identifier whose source was removed no longer resolves
    inventory.remove_local_static_source(&path);
    assert!(inventory.last_scheduled_task().is_none());
}

#[test]
fn path_argument_is_advisory_for_static_sources() {
    let mut inventory = Inventory::new();
    inventory.add_static_source(TaskSourceKind::UserInput, make_source(1, &["a", "b"]));
    let with_path = list_task_names(&inventory, Some("/somewhere"), None, false);
    let without_path = list_task_names(&inventory, None, None, false);
    assert_eq!(with_path, without_path);
}

#[test]
fn recency_promotes_most_recent_distinct_first() {
    let mut inventory = Inventory::new();
    inventory.add_static_source(
        TaskSourceKind::UserInput,
        make_source(1, &["alpha", "beta", "2_other", "10_other"]),
    );
    register_task_used(&mut inventory, "alpha");
    register_task_used(&mut inventory, "beta");
    register_task_used(&mut inventory, "beta");
    register_task_used(&mut inventory, "beta");
    assert_eq!(
        list_task_names(&inventory, None, None, true),
        vec![
            "beta".to_string(),
            "alpha".to_string(),
            "2_other".to_string(),
            "10_other".to_string(),
        ],
        "most recent distinct first, unused tasks keep their name order"
    );
}
