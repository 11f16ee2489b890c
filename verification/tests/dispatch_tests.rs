use task_tracker::dispatch::{apply, panic_error, parse_action, Action};
use task_tracker::num::parse_i32;
use task_tracker::store::{Error, Status, TaskHolder};

fn args(tokens: &[&str]) -> Vec<String> {
    let mut v = vec!["task_tracker".to_string()];
    for t in tokens {
        v.push(t.to_string());
    }
    v
}

#[test]
fn parse_list_without_filter() {
    let r = parse_action(&args(&["list"]));
    assert!(matches!(r, Ok(Action::List(None))));
}

#[test]
fn parse_list_with_each_filter() {
    assert!(matches!(
        parse_action(&args(&["list", "done"])),
        Ok(Action::List(Some(Status::Done)))
    ));
    assert!(matches!(
        parse_action(&args(&["list", "todo"])),
        Ok(Action::List(Some(Status::ToDo)))
    ));
    assert!(matches!(
        parse_action(&args(&["list", "inprogress"])),
        Ok(Action::List(Some(Status::InProgress)))
    ));
}

#[test]
fn parse_list_with_unknown_filter_is_usage_error() {
    assert!(matches!(
        parse_action(&args(&["list", "finished"])),
        Err(Error::Usage)
    ));
}

#[test]
fn parse_create() {
    match parse_action(&args(&["create", "buy milk"])) {
        Ok(Action::Create(m)) => assert_eq!(m, "buy milk"),
        other => panic!("unexpected parse: {:?}", other),
    }
}

#[test]
fn parse_remove_update_and_marks() {
    assert!(matches!(
        parse_action(&args(&["remove", "3"])),
        Ok(Action::Remove(3))
    ));
    match parse_action(&args(&["update", "2", "new text"])) {
        Ok(Action::Update(2, m)) => assert_eq!(m, "new text"),
        other => panic!("unexpected parse: {:?}", other),
    }
    assert!(matches!(
        parse_action(&args(&["mark-done", "1"])),
        Ok(Action::MarkDone(1))
    ));
    assert!(matches!(
        parse_action(&args(&["mark-in-progress", "7"])),
        Ok(Action::MarkInProgress(7))
    ));
}

#[test]
fn missing_arguments_are_usage_errors() {
    assert!(matches!(parse_action(&args(&[])), Err(Error::Usage)));
    assert!(matches!(parse_action(&args(&["create"])), Err(Error::Usage)));
    assert!(matches!(parse_action(&args(&["remove"])), Err(Error::Usage)));
    assert!(matches!(parse_action(&args(&["update"])), Err(Error::Usage)));
    assert!(matches!(
        parse_action(&args(&["update", "3"])),
        Err(Error::Usage)
    ));
    assert!(matches!(
        parse_action(&args(&["mark-done"])),
        Err(Error::Usage)
    ));
}

#[test]
fn unknown_action_is_usage_error() {
    assert!(matches!(parse_action(&args(&["delete", "1"])), Err(Error::Usage)));
}

#[test]
fn usage_is_checked_before_the_id_token() {
    // `update` with a bad id but no message is a usage error, as the
    // message argument is looked at before the id is read.
    assert!(matches!(
        parse_action(&args(&["update", "abc"])),
        Err(Error::Usage)
    ));
}

#[test]
fn bad_id_tokens_are_parse_errors() {
    assert!(matches!(
        parse_action(&args(&["remove", "abc"])),
        Err(Error::Parse)
    ));
    assert!(matches!(
        parse_action(&args(&["mark-done", "1.5"])),
        Err(Error::Parse)
    ));
    assert!(matches!(
        parse_action(&args(&["update", "x", "msg"])),
        Err(Error::Parse)
    ));
}

#[test]
fn parse_i32_accepts_integer_literals() {
    assert_eq!(parse_i32("0"), Ok(0));
    assert_eq!(parse_i32("123"), Ok(123));
    assert_eq!(parse_i32("+7"), Ok(7));
    assert_eq!(parse_i32("-42"), Ok(-42));
    assert_eq!(parse_i32("0000000001"), Ok(1));
    assert_eq!(parse_i32("2147483647"), Ok(2147483647));
    assert_eq!(parse_i32("-2147483648"), Ok(-2147483648));
}

#[test]
fn parse_i32_rejects_everything_else() {
    assert_eq!(parse_i32(""), Err(Error::Parse));
    assert_eq!(parse_i32("-"), Err(Error::Parse));
    assert_eq!(parse_i32("+"), Err(Error::Parse));
    assert_eq!(parse_i32("12a"), Err(Error::Parse));
    assert_eq!(parse_i32(" 1"), Err(Error::Parse));
    assert_eq!(parse_i32("1 "), Err(Error::Parse));
    assert_eq!(parse_i32("--3"), Err(Error::Parse));
    assert_eq!(parse_i32("2147483648"), Err(Error::Parse));
    assert_eq!(parse_i32("-2147483649"), Err(Error::Parse));
    assert_eq!(parse_i32("99999999999999999999"), Err(Error::Parse));
}

#[test]
fn apply_runs_a_full_invocation_sequence() {
    let mut h = TaskHolder::new();
    assert!(apply(&mut h, Action::Create("buy milk".to_string())).is_ok());
    assert!(apply(&mut h, Action::Create("walk dog".to_string())).is_ok());
    assert!(apply(&mut h, Action::MarkDone(1)).is_ok());
    let shown = apply(&mut h, Action::List(Some(Status::Done))).unwrap();
    assert_eq!(shown.len(), 1);
    assert_eq!(shown[0].id, 1);
    assert!(apply(&mut h, Action::Remove(1)).is_ok());
    let shown = apply(&mut h, Action::List(None)).unwrap();
    assert_eq!(shown.len(), 1);
    assert_eq!(shown[0].id, 2);
    assert_eq!(shown[0].message, "walk dog");
}

#[test]
fn apply_reports_not_found_on_empty_store() {
    let mut h = TaskHolder::new();
    assert_eq!(
        apply(&mut h, Action::Remove(1)).unwrap_err(),
        Error::NotFound
    );
    assert_eq!(h.all_tasks.len(), 0);
}

#[test]
fn error_messages() {
    assert_eq!(
        Error::NotFound.message(),
        "Did not found a Task with that index!"
    );
    assert!(panic_error().contains("Bad action!"));
    assert!(panic_error().contains("list status[done,todo,inprogress](not required)"));
    assert_eq!(Error::Usage.message(), panic_error());
}

#[test]
fn extra_arguments_are_ignored() {
    assert!(matches!(
        parse_action(&args(&["list", "done", "extra"])),
        Ok(Action::List(Some(Status::Done)))
    ));
    match parse_action(&args(&["create", "msg", "extra"])) {
        Ok(Action::Create(m)) => assert_eq!(m, "msg"),
        other => panic!("unexpected parse: {:?}", other),
    }
}
