use task_tracker::codec::{check_wf, from_json, to_json};
use task_tracker::store::{Error, Status, Task, TaskHolder};

#[test]
fn empty_store_serializes_to_the_fixed_document() {
    let h = TaskHolder::new();
    assert_eq!(to_json(&h), "{\n  \"all_tasks\": []\n}");
}

#[test]
fn one_task_serializes_exactly() {
    let mut h = TaskHolder::new();
    h.create("buy milk".to_string());
    let expected = "{\n  \"all_tasks\": [\n    {\n      \"id\": 1,\n      \"message\": \"buy milk\",\n      \"status\": \"ToDo\"\n    }\n  ]\n}";
    assert_eq!(to_json(&h), expected);
}

#[test]
fn two_tasks_serialize_with_comma_separation() {
    let mut h = TaskHolder::new();
    h.create("a".to_string());
    h.create("b".to_string());
    h.mark_done(2).unwrap();
    let expected = "{\n  \"all_tasks\": [\n    {\n      \"id\": 1,\n      \"message\": \"a\",\n      \"status\": \"ToDo\"\n    },\n    {\n      \"id\": 2,\n      \"message\": \"b\",\n      \"status\": \"Done\"\n    }\n  ]\n}";
    assert_eq!(to_json(&h), expected);
}

#[test]
fn multi_digit_ids_serialize_in_decimal() {
    let h = TaskHolder {
        all_tasks: vec![Task {
            id: 1073741824,
            message: "big".to_string(),
            status: Status::InProgress,
        }],
    };
    assert!(check_wf(&h));
    let text = to_json(&h);
    assert!(text.contains("\"id\": 1073741824,"));
    assert!(text.contains("\"status\": \"InProgress\""));
}

#[test]
fn messages_are_escaped_like_json() {
    let mut h = TaskHolder::new();
    h.create("say \"hi\" \\ there\nnext\tline\r\u{8}\u{c}\u{1}\u{1f}".to_string());
    let text = to_json(&h);
    assert!(text.contains(
        "\"message\": \"say \\\"hi\\\" \\\\ there\\nnext\\tline\\r\\b\\f\\u0001\\u001f\""
    ));
}

#[test]
fn non_ascii_messages_pass_through_unescaped() {
    let mut h = TaskHolder::new();
    h.create("héllo wörld ✓".to_string());
    let text = to_json(&h);
    assert!(text.contains("\"message\": \"héllo wörld ✓\""));
    let back = from_json(&text).unwrap();
    assert_eq!(back.all_tasks[0].message, "héllo wörld ✓");
}

#[test]
fn serialize_parse_serialize_is_byte_identical() {
    let mut h = TaskHolder::new();
    h.create("buy milk".to_string());
    h.create("say \"hi\"\n\\done".to_string());
    h.create("walk dog".to_string());
    h.mark_done(1).unwrap();
    h.mark_in_progress(2).unwrap();
    h.remove(3).unwrap();
    let first = to_json(&h);
    let reloaded = from_json(&first).unwrap();
    let second = to_json(&reloaded);
    assert_eq!(first, second);
    assert_eq!(reloaded.all_tasks.len(), h.all_tasks.len());
    for (a, b) in h.all_tasks.iter().zip(reloaded.all_tasks.iter()) {
        assert_eq!(a.id, b.id);
        assert_eq!(a.message, b.message);
        assert_eq!(a.status, b.status);
    }
}

#[test]
fn empty_document_round_trips() {
    let text = to_json(&TaskHolder::new());
    let h = from_json(&text).unwrap();
    assert_eq!(h.all_tasks.len(), 0);
    assert_eq!(to_json(&h), text);
}

#[test]
fn parse_accepts_a_handwritten_canonical_document() {
    let text = "{\n  \"all_tasks\": [\n    {\n      \"id\": 2,\n      \"message\": \"left over\",\n      \"status\": \"Done\"\n    }\n  ]\n}";
    let h = from_json(text).unwrap();
    assert_eq!(h.all_tasks.len(), 1);
    assert_eq!(h.all_tasks[0].id, 2);
    assert_eq!(h.all_tasks[0].message, "left over");
    assert_eq!(h.all_tasks[0].status, Status::Done);
}

#[test]
fn parse_undoes_escapes() {
    let text = "{\n  \"all_tasks\": [\n    {\n      \"id\": 1,\n      \"message\": \"a\\\"b\\\\c\\nd\\te\\rf\\bg\\fh\\u0001i\",\n      \"status\": \"ToDo\"\n    }\n  ]\n}";
    let h = from_json(text).unwrap();
    assert_eq!(h.all_tasks[0].message, "a\"b\\c\nd\te\rf\u{8}g\u{c}h\u{1}i");
}

#[test]
fn parse_rejects_malformed_documents() {
    assert!(matches!(from_json(""), Err(Error::Parse)));
    assert!(matches!(from_json("{}"), Err(Error::Parse)));
    assert!(matches!(from_json("not json at all"), Err(Error::Parse)));
    assert!(matches!(from_json("{\"all_tasks\":[]}"), Err(Error::Parse)));
    assert!(matches!(
        from_json("{\n  \"all_tasks\": []\n}\n"),
        Err(Error::Parse)
    ));
    assert!(matches!(
        from_json("{\n  \"all_tasks\": [\n  ]\n}"),
        Err(Error::Parse)
    ));
}

#[test]
fn parse_rejects_a_bad_status_or_id() {
    let good = "{\n  \"all_tasks\": [\n    {\n      \"id\": 1,\n      \"message\": \"x\",\n      \"status\": \"ToDo\"\n    }\n  ]\n}";
    assert!(from_json(good).is_ok());
    let bad_status = good.replace("\"status\": \"ToDo\"", "\"status\": \"Finished\"");
    assert!(matches!(from_json(&bad_status), Err(Error::Parse)));
    let bad_id = good.replace("\"id\": 1", "\"id\": zero");
    assert!(matches!(from_json(&bad_id), Err(Error::Parse)));
    let zero_id = good.replace("\"id\": 1", "\"id\": 0");
    assert!(matches!(from_json(&zero_id), Err(Error::Parse)));
}

#[test]
fn parse_rejects_out_of_order_ids() {
    let text = "{\n  \"all_tasks\": [\n    {\n      \"id\": 2,\n      \"message\": \"a\",\n      \"status\": \"ToDo\"\n    },\n    {\n      \"id\": 1,\n      \"message\": \"b\",\n      \"status\": \"ToDo\"\n    }\n  ]\n}";
    assert!(matches!(from_json(text), Err(Error::Parse)));
}

#[test]
fn check_wf_detects_broken_id_order() {
    let good = TaskHolder {
        all_tasks: vec![
            Task { id: 1, message: "a".to_string(), status: Status::ToDo },
            Task { id: 5, message: "b".to_string(), status: Status::Done },
        ],
    };
    assert!(check_wf(&good));
    let bad = TaskHolder {
        all_tasks: vec![
            Task { id: 3, message: "a".to_string(), status: Status::ToDo },
            Task { id: 3, message: "b".to_string(), status: Status::Done },
        ],
    };
    assert!(!check_wf(&bad));
    let zero = TaskHolder {
        all_tasks: vec![Task { id: 0, message: "a".to_string(), status: Status::ToDo }],
    };
    assert!(!check_wf(&zero));
}

#[test]
fn stores_with_id_gaps_round_trip() {
    let h = TaskHolder {
        all_tasks: vec![
            Task { id: 2, message: "kept".to_string(), status: Status::Done },
            Task { id: 7, message: "later".to_string(), status: Status::InProgress },
        ],
    };
    let text = to_json(&h);
    let back = from_json(&text).unwrap();
    assert_eq!(back.all_tasks.len(), 2);
    assert_eq!(back.all_tasks[0].id, 2);
    assert_eq!(back.all_tasks[1].id, 7);
    assert_eq!(to_json(&back), text);
}
