use task_tracker::store::{Error, Status, Task, TaskHolder};

fn new_store() -> TaskHolder {
    TaskHolder::new()
}

#[test]
fn ids_are_consecutive_from_one() {
    let mut h = new_store();
    for k in 0..5 {
        h.create(format!("task {}", k));
    }
    assert_eq!(h.all_tasks.len(), 5);
    for k in 0..5 {
        assert_eq!(h.all_tasks[k].id, k as i32 + 1);
        assert_eq!(h.all_tasks[k].status, Status::ToDo);
    }
}

#[test]
fn ids_are_not_reused_after_removal() {
    let mut h = new_store();
    h.create("a".to_string());
    h.create("b".to_string());
    h.create("c".to_string());
    assert_eq!(h.remove(1), Ok(()));
    let ids: Vec<i32> = h.all_tasks.iter().map(|t| t.id).collect();
    assert_eq!(ids, vec![2, 3]);
    h.create("d".to_string());
    let ids: Vec<i32> = h.all_tasks.iter().map(|t| t.id).collect();
    assert_eq!(ids, vec![2, 3, 4]);
}

#[test]
fn create_then_list_shows_exactly_that_task() {
    let mut h = new_store();
    h.create("water the plants".to_string());
    let listed = h.list(None);
    assert_eq!(listed.len(), 1);
    assert_eq!(listed[0].id, 1);
    assert_eq!(listed[0].message, "water the plants");
    assert_eq!(listed[0].status, Status::ToDo);
}

#[test]
fn mark_done_moves_task_between_filters() {
    let mut h = new_store();
    h.create("a".to_string());
    h.create("b".to_string());
    assert_eq!(h.mark_done(1), Ok(()));
    let done = h.list(Some(Status::Done));
    assert_eq!(done.len(), 1);
    assert_eq!(done[0].id, 1);
    let todo = h.list(Some(Status::ToDo));
    assert_eq!(todo.len(), 1);
    assert_eq!(todo[0].id, 2);
    assert!(todo.iter().all(|t| t.id != 1));
}

#[test]
fn update_changes_only_the_message() {
    let mut h = new_store();
    h.create("draft".to_string());
    assert_eq!(h.mark_in_progress(1), Ok(()));
    assert_eq!(h.update(1, "final text".to_string()), Ok(()));
    assert_eq!(h.all_tasks[0].id, 1);
    assert_eq!(h.all_tasks[0].message, "final text");
    assert_eq!(h.all_tasks[0].status, Status::InProgress);
}

#[test]
fn remove_removes_exactly_one_and_repeat_fails() {
    let mut h = new_store();
    h.create("a".to_string());
    h.create("b".to_string());
    h.create("c".to_string());
    assert_eq!(h.remove(3), Ok(()));
    assert_eq!(h.all_tasks.len(), 2);
    let listed = h.list(None);
    assert!(listed.iter().all(|t| t.id != 3));
    assert_eq!(h.remove(3), Err(Error::NotFound));
    assert_eq!(h.all_tasks.len(), 2);
}

#[test]
fn remove_on_empty_store_reports_not_found() {
    let mut h = new_store();
    assert_eq!(h.remove(1), Err(Error::NotFound));
    assert_eq!(h.all_tasks.len(), 0);
}

#[test]
fn out_of_range_ids_report_not_found() {
    let mut h = new_store();
    h.create("a".to_string());
    assert_eq!(h.remove(0), Err(Error::NotFound));
    assert_eq!(h.remove(-4), Err(Error::NotFound));
    assert_eq!(h.remove(2), Err(Error::NotFound));
    assert_eq!(h.update(2, "x".to_string()), Err(Error::NotFound));
    assert_eq!(h.mark_done(0), Err(Error::NotFound));
    assert_eq!(h.mark_in_progress(5), Err(Error::NotFound));
    assert_eq!(h.all_tasks.len(), 1);
    assert_eq!(h.all_tasks[0].message, "a");
}

#[test]
fn status_transitions_are_unconstrained() {
    let mut h = new_store();
    h.create("a".to_string());
    assert_eq!(h.mark_done(1), Ok(()));
    assert_eq!(h.all_tasks[0].status, Status::Done);
    assert_eq!(h.mark_in_progress(1), Ok(()));
    assert_eq!(h.all_tasks[0].status, Status::InProgress);
    assert_eq!(h.mark_done(1), Ok(()));
    assert_eq!(h.all_tasks[0].status, Status::Done);
}

#[test]
fn list_preserves_order() {
    let mut h = new_store();
    h.create("a".to_string());
    h.create("b".to_string());
    h.create("c".to_string());
    h.create("d".to_string());
    assert_eq!(h.mark_done(2), Ok(()));
    assert_eq!(h.mark_done(4), Ok(()));
    let done = h.list(Some(Status::Done));
    let ids: Vec<i32> = done.iter().map(|t| t.id).collect();
    assert_eq!(ids, vec![2, 4]);
    let all = h.list(None);
    let ids: Vec<i32> = all.iter().map(|t| t.id).collect();
    assert_eq!(ids, vec![1, 2, 3, 4]);
}

#[test]
fn full_scenario_create_mark_remove() {
    let mut h = new_store();
    h.create("buy milk".to_string());
    h.create("walk dog".to_string());
    let ids: Vec<i32> = h.all_tasks.iter().map(|t| t.id).collect();
    assert_eq!(ids, vec![1, 2]);
    assert!(h.all_tasks.iter().all(|t| t.status == Status::ToDo));

    assert_eq!(h.mark_done(1), Ok(()));
    let done = h.list(Some(Status::Done));
    assert_eq!(done.len(), 1);
    assert_eq!(done[0].id, 1);
    assert_eq!(done[0].message, "buy milk");

    assert_eq!(h.remove(1), Ok(()));
    let all = h.list(None);
    assert_eq!(all.len(), 1);
    assert_eq!(all[0].id, 2);
    assert_eq!(all[0].message, "walk dog");
    assert_eq!(all[0].status, Status::ToDo);
}

#[test]
fn next_id_follows_the_last_id_not_the_length() {
    let mut h = TaskHolder {
        all_tasks: vec![
            Task { id: 5, message: "a".to_string(), status: Status::Done },
            Task { id: 9, message: "b".to_string(), status: Status::ToDo },
        ],
    };
    h.create("c".to_string());
    assert_eq!(h.all_tasks.len(), 3);
    assert_eq!(h.all_tasks[2].id, 10);
}
