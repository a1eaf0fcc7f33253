use taskflow::status::TaskStatus;
use taskflow::store::TaskStore;
use taskflow::store::review_due_days;
use taskflow::task::StoreError;

fn new_store() -> TaskStore {
    TaskStore::new()
}

#[test]
fn test_create_and_get_task() {
    let mut db = new_store();

    let task = db
        .create_task(
            "Test task".to_string(),
            TaskStatus::Next,
            None,
            None,
            None,
            "test".to_string(),
            None,
        )
        .unwrap();

    assert_eq!(task.title, "Test task");
    assert_eq!(task.status, TaskStatus::Next);

    let retrieved = db.get_task(&task.id).unwrap();
    assert_eq!(retrieved.id, task.id);
}

#[test]
fn test_dashboard_data() {
    let mut db = new_store();

    db.create_task(
        "NOW task".to_string(),
        TaskStatus::Now,
        None,
        None,
        None,
        "test".to_string(),
        None,
    )
    .unwrap();

    db.create_task(
        "NEXT task 1".to_string(),
        TaskStatus::Next,
        None,
        None,
        None,
        "test".to_string(),
        None,
    )
    .unwrap();

    let dashboard = db.get_dashboard_data();

    assert!(dashboard.now_task.is_some());
    assert_eq!(dashboard.now_task.unwrap().title, "NOW task");
    assert_eq!(dashboard.next_tasks.len(), 1);
}

#[test]
fn test_one_now_task_enforcement() {
    let mut db = new_store();

    let task1 = db
        .create_task(
            "NOW task 1".to_string(),
            TaskStatus::Now,
            None,
            None,
            None,
            "test".to_string(),
            None,
        )
        .unwrap();

    let task2 = db
        .create_task(
            "Task 2".to_string(),
            TaskStatus::Next,
            None,
            None,
            None,
            "test".to_string(),
            None,
        )
        .unwrap();

    db.update_task_status(&task2.id, TaskStatus::Now).unwrap();

    let task1_updated = db.get_task(&task1.id).unwrap();
    assert_eq!(task1_updated.status, TaskStatus::Next);

    let task2_updated = db.get_task(&task2.id).unwrap();
    assert_eq!(task2_updated.status, TaskStatus::Now);
}

#[test]
fn promotion_bumps_both_revision_counters() {
    let mut db = new_store();
    let a = db
        .create_task("A".to_string(), TaskStatus::Now, None, None, None, "test".to_string(), None)
        .unwrap();
    let b = db
        .create_task("B".to_string(), TaskStatus::Next, None, None, None, "test".to_string(), None)
        .unwrap();
    assert_eq!(a.sync_version, 1);
    assert_eq!(b.sync_version, 1);

    db.update_task_status(&b.id, TaskStatus::Now).unwrap();

    let a2 = db.get_task(&a.id).unwrap();
    let b2 = db.get_task(&b.id).unwrap();
    assert_eq!(a2.status, TaskStatus::Next);
    assert_eq!(b2.status, TaskStatus::Now);
    assert_eq!(a2.sync_version, 2);
    assert_eq!(b2.sync_version, 2);
}

#[test]
fn done_sets_and_clears_completed_at() {
    let mut db = new_store();
    let t = db
        .create_task("T".to_string(), TaskStatus::Next, None, None, None, "test".to_string(), None)
        .unwrap();
    assert_eq!(t.completed_at, None);

    db.update_task_status(&t.id, TaskStatus::Done).unwrap();
    let done = db.get_task(&t.id).unwrap();
    assert!(done.completed_at.is_some());
    assert_eq!(done.status, TaskStatus::Done);

    db.update_task_status(&t.id, TaskStatus::Waiting).unwrap();
    let reopened = db.get_task(&t.id).unwrap();
    assert_eq!(reopened.completed_at, None);
    assert_eq!(reopened.status, TaskStatus::Waiting);
}

#[test]
fn unknown_status_token_is_rejected_without_change() {
    let mut db = new_store();
    let t = db
        .create_task("T".to_string(), TaskStatus::Next, None, None, None, "test".to_string(), None)
        .unwrap();

    let r = db.update_status_from_str(&t.id, "blocked");
    assert_eq!(r, Err(StoreError::UnknownStatus));

    let unchanged = db.get_task(&t.id).unwrap();
    assert_eq!(unchanged.status, TaskStatus::Next);
    assert_eq!(unchanged.sync_version, 1);
    assert_eq!(unchanged.completed_at, None);
}

#[test]
fn recognized_status_token_is_applied() {
    let mut db = new_store();
    let t = db
        .create_task("T".to_string(), TaskStatus::Next, None, None, None, "test".to_string(), None)
        .unwrap();
    db.update_status_from_str(&t.id, "waiting").unwrap();
    assert_eq!(db.get_task(&t.id).unwrap().status, TaskStatus::Waiting);
}

#[test]
fn delete_of_missing_id_is_a_quiet_no_op() {
    let mut db = new_store();
    assert!(db.delete_task("no-such-id").is_ok());

    let t = db
        .create_task("T".to_string(), TaskStatus::Next, None, None, None, "test".to_string(), None)
        .unwrap();
    assert!(db.delete_task(&t.id).is_ok());
    assert!(db.delete_task(&t.id).is_ok());
    assert!(matches!(db.get_task(&t.id), Err(StoreError::NotFound)));
}

#[test]
fn get_of_missing_id_is_not_found() {
    let db = new_store();
    assert!(matches!(db.get_task("absent"), Err(StoreError::NotFound)));
}

#[test]
fn update_of_missing_id_is_not_found() {
    let mut db = new_store();
    assert_eq!(db.update_task_status("absent", TaskStatus::Done), Err(StoreError::NotFound));
}

#[test]
fn duplicate_id_is_rejected() {
    let mut db = new_store();
    db.create_task_with_id(
        "fixed-id".to_string(),
        100,
        "First".to_string(),
        TaskStatus::Next,
        None,
        None,
        None,
        "test".to_string(),
        None,
    )
    .unwrap();
    let r = db.create_task_with_id(
        "fixed-id".to_string(),
        200,
        "Second".to_string(),
        TaskStatus::Next,
        None,
        None,
        None,
        "test".to_string(),
        None,
    );
    assert_eq!(r.map(|t| t.title), Err(StoreError::DuplicateId));
}

#[test]
fn creation_times_never_decrease() {
    let mut db = new_store();
    let first = db
        .create_task_with_id(
            "one".to_string(),
            200,
            "First".to_string(),
            TaskStatus::Next,
            None,
            None,
            None,
            "test".to_string(),
            None,
        )
        .unwrap();
    assert_eq!(first.created_at, 200);
    // A clock reading older than the newest task is clamped up to it.
    let second = db
        .create_task_with_id(
            "two".to_string(),
            100,
            "Second".to_string(),
            TaskStatus::Next,
            None,
            None,
            None,
            "test".to_string(),
            None,
        )
        .unwrap();
    assert_eq!(second.created_at, 200);
    let third = db
        .create_task_with_id(
            "three".to_string(),
            300,
            "Third".to_string(),
            TaskStatus::Next,
            None,
            None,
            None,
            "test".to_string(),
            None,
        )
        .unwrap();
    assert_eq!(third.created_at, 300);

    let all = db.query_by_status(TaskStatus::Next, 10);
    assert_eq!(all.len(), 3);
    assert!(all[0].created_at >= all[1].created_at);
    assert!(all[1].created_at >= all[2].created_at);
}

#[test]
fn status_tokens_round_trip() {
    let all = [
        (TaskStatus::Now, "now"),
        (TaskStatus::Next, "next"),
        (TaskStatus::Waiting, "waiting"),
        (TaskStatus::Someday, "someday"),
        (TaskStatus::Done, "done"),
    ];
    for (status, token) in all {
        assert_eq!(status.as_str(), token);
        assert_eq!(TaskStatus::from_str(token), Some(status));
    }
    assert_eq!(TaskStatus::from_str("bogus"), None);
    assert_eq!(TaskStatus::from_str_or_next("bogus"), TaskStatus::Next);
    assert_eq!(TaskStatus::from_str_or_next("done"), TaskStatus::Done);
}

#[test]
fn query_returns_newest_first_up_to_limit() {
    let mut db = new_store();
    for (id, title) in [("a", "First"), ("b", "Second"), ("c", "Third")] {
        db.create_task_with_id(
            id.to_string(),
            0,
            title.to_string(),
            TaskStatus::Next,
            None,
            None,
            None,
            "test".to_string(),
            None,
        )
        .unwrap();
    }
    let two = db.query_by_status(TaskStatus::Next, 2);
    assert_eq!(two.len(), 2);
    assert_eq!(two[0].title, "Third");
    assert_eq!(two[1].title, "Second");
    assert_eq!(db.query_by_status(TaskStatus::Waiting, 2).len(), 0);
}

#[test]
fn quick_capture_parses_and_stores() {
    let mut db = new_store();
    let t = db
        .quick_capture("Buy milk @groceries".to_string(), "quick_capture".to_string())
        .unwrap();
    assert_eq!(t.title, "Buy milk");
    assert_eq!(t.context, Some("groceries".to_string()));
    assert_eq!(t.scheduled_for, None);
    assert_eq!(t.status, TaskStatus::Next);
    assert_eq!(t.original_input, Some("Buy milk @groceries".to_string()));
    assert_eq!(t.source, "quick_capture");
    assert_eq!(t.sync_version, 1);

    let stored = db.get_task(&t.id).unwrap();
    assert_eq!(stored.title, "Buy milk");
}

#[test]
fn raw_capture_keeps_the_line_as_typed() {
    let mut db = new_store();
    let t = db
        .raw_capture("Call mom tomorrow".to_string(), "desktop_hotkey".to_string())
        .unwrap();
    assert_eq!(t.title, "Call mom tomorrow");
    assert_eq!(t.context, None);
    assert_eq!(t.scheduled_for, None);
    assert_eq!(t.original_input, Some("Call mom tomorrow".to_string()));
}

#[test]
fn review_countdown_formula() {
    // Ten days after a review with a seven-day interval: three overdue.
    assert_eq!(review_due_days(10 * 86400, 0, 7), -3);
    assert_eq!(review_due_days(0, 0, 7), 7);
    assert_eq!(review_due_days(6 * 86400 + 86399, 0, 7), 1);
}

#[test]
fn loaded_settings_are_validated() {
    let mut db = new_store();
    db.load_review_settings(86400, 14);
    assert_eq!(db.last_review_date, 86400);
    assert_eq!(db.review_frequency_days, 14);
    db.load_review_settings(-5, 0);
    assert_eq!(db.last_review_date, 86400);
    assert_eq!(db.review_frequency_days, 14);
}
