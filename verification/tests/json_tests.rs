use tasklist::store::TaskList;
use tasklist::task::Task;

fn task(title: &str, importance: u8, due: Option<i64>, created: i64) -> Task {
    Task::with_created(title.to_string(), None, importance, due, created)
}

fn store(tasks: Vec<Task>) -> TaskList {
    TaskList { tasks, last_shown: None }
}

fn assert_same_leaf(a: &Task, b: &Task) {
    assert_eq!(a.title, b.title);
    assert_eq!(a.description, b.description);
    assert_eq!(a.importance, b.importance);
    assert_eq!(a.due_date, b.due_date);
    assert_eq!(a.date_created, b.date_created);
}

fn assert_same_store(a: &TaskList, b: &TaskList) {
    assert_eq!(a.tasks.len(), b.tasks.len());
    for (x, y) in a.tasks.iter().zip(b.tasks.iter()) {
        assert_same_leaf(x, y);
        assert_eq!(x.sub_tasks.len(), y.sub_tasks.len());
        for (sx, sy) in x.sub_tasks.iter().zip(y.sub_tasks.iter()) {
            assert_same_leaf(sx, sy);
        }
    }
}

#[test]
fn empty_store_serializes_to_empty_array() {
    let list = TaskList::new();
    assert_eq!(list.serialize(), "[]");
    let back = TaskList::deserialize("[]").expect("empty array is a store");
    assert!(back.tasks.is_empty());
    assert_eq!(back.last_shown, None);
}

#[test]
fn one_task_serializes_to_the_exact_record() {
    let list = store(vec![task("Buy milk", 2, Some(1700000000), 1700000000 - 60)]);
    let text = list.serialize();
    let expected = ["[{\"title\":\"Buy milk\",\"description\":\"None\",\"importance\":2,",
        "\"due_date\":\"2023-11-14 22:13:20\",\"date_created\":\"2023-11-14 22:12:20\",",
        "\"sub_tasks\":[]}]"].join("");
    assert_eq!(text, expected);
}

#[test]
fn round_trip_zero_one_many() {
    let zero = TaskList::new();
    assert_same_store(&TaskList::deserialize(&zero.serialize()).unwrap(), &zero);

    let one = store(vec![task("a", 0, None, 5)]);
    assert_same_store(&TaskList::deserialize(&one.serialize()).unwrap(), &one);

    let mut with_desc = task("described", 1, Some(123456), 99);
    with_desc.description = Some("a plain description".to_string());
    let mut with_subs = task("parent", 3, None, 100);
    with_subs.add_sub_task(task("child one", 0, Some(777), 101));
    let mut sub2 = task("child two", 2, None, 102);
    sub2.description = Some("inner".to_string());
    with_subs.add_sub_task(sub2);
    let many = store(vec![with_desc, with_subs, task("plain", 0, None, 103)]);
    assert_same_store(&TaskList::deserialize(&many.serialize()).unwrap(), &many);
}

#[test]
fn round_trip_escapes_special_characters() {
    let mut tricky = task("a \"quoted\" title \\ with backslash", 0, None, 1);
    tricky.description = Some("line one\nline two\ttabbed\rreturn".to_string());
    let list = store(vec![tricky]);
    let text = list.serialize();
    let back = TaskList::deserialize(&text).expect("escaped text reads back");
    assert_same_store(&back, &list);
}

#[test]
fn deserialize_refuses_malformed_text() {
    assert!(TaskList::deserialize("").is_none());
    assert!(TaskList::deserialize("not json").is_none());
    assert!(TaskList::deserialize("[{}]").is_none());
    assert!(TaskList::deserialize("[").is_none());
    assert!(TaskList::deserialize("[]trailing").is_none());
    // a rank past the admissible range is refused
    let bad_rank = ["[{\"title\":\"x\",\"description\":\"None\",\"importance\":9,",
        "\"due_date\":\"None\",\"date_created\":\"1970-01-01 00:00:10\",\"sub_tasks\":[]}]"]
        .join("");
    assert!(TaskList::deserialize(&bad_rank).is_none());
}

#[test]
fn deserialize_reads_the_written_format() {
    let text = ["[{\"title\":\"from disk\",\"description\":\"kept\",\"importance\":1,",
        "\"due_date\":\"None\",\"date_created\":\"2023-11-14 22:13:20\",",
        "\"sub_tasks\":[{\"title\":\"inner\",\"description\":\"None\",\"importance\":0,",
        "\"due_date\":\"1970-01-01 00:00:05\",\"date_created\":\"1970-01-01 00:00:01\",",
        "\"sub_tasks\":[]}]}]"].join("");
    let list = TaskList::deserialize(&text).expect("well-formed record");
    assert_eq!(list.tasks.len(), 1);
    let t = &list.tasks[0];
    assert_eq!(t.title, "from disk");
    assert_eq!(t.description.as_deref(), Some("kept"));
    assert_eq!(t.importance, 1);
    assert_eq!(t.due_date, None);
    assert_eq!(t.date_created, 1700000000);
    assert_eq!(t.sub_tasks.len(), 1);
    let s = &t.sub_tasks[0];
    assert_eq!(s.title, "inner");
    assert_eq!(s.description, None);
    assert_eq!(s.due_date, Some(5));
    assert_eq!(s.date_created, 1);
}

#[test]
fn serialized_text_is_json_for_other_readers() {
    let mut t = task("compat \"check\"", 3, Some(1700000000), 42);
    t.description = Some("desc".to_string());
    t.add_sub_task(task("sub", 1, None, 43));
    let list = store(vec![t]);
    let value: serde_json::Value = serde_json::from_str(&list.serialize()).expect("valid JSON");
    let record = &value[0];
    assert_eq!(record["title"], "compat \"check\"");
    assert_eq!(record["description"], "desc");
    assert_eq!(record["importance"], 3);
    assert_eq!(record["due_date"], "2023-11-14 22:13:20");
    assert_eq!(record["sub_tasks"][0]["title"], "sub");
    assert_eq!(record["sub_tasks"][0]["due_date"], "None");
}
