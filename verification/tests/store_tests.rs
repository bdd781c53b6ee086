use tasklist::store::TaskList;
use tasklist::task::{Task, Urgency};

fn task(title: &str, importance: u8, due: Option<i64>, created: i64) -> Task {
    Task::with_created(title.to_string(), None, importance, due, created)
}

fn store(tasks: Vec<Task>) -> TaskList {
    TaskList { tasks, last_shown: None }
}

fn titles(list: &TaskList) -> Vec<String> {
    list.tasks.iter().map(|t| t.title.clone()).collect()
}

#[test]
fn construct_sets_fields() {
    let t = Task::new("milk".to_string(), Some("two liters".to_string()), 2, Some(5000));
    assert_eq!(t.title, "milk");
    assert_eq!(t.description.as_deref(), Some("two liters"));
    assert_eq!(t.importance, 2);
    assert_eq!(t.due_date, Some(5000));
    assert!(t.sub_tasks.is_empty());
}

#[test]
fn info_round_trips_every_field() {
    let mut t = task("milk", 3, Some(1700000000), 1700000000 - 3600);
    t.description = Some("two liters".to_string());
    let info = t.render_info();
    assert_eq!(info.title, "milk");
    assert_eq!(info.description, "two liters");
    assert_eq!(info.importance, 3);
    assert_eq!(info.due_date, "2023-11-14 22:13:20");
    assert_eq!(info.date_created, "2023-11-14 21:13:20");
    assert_eq!(info.sub_count, 0);

    let bare = task("bare", 0, None, 0);
    let info2 = bare.render_info();
    assert_eq!(info2.description, "None");
    assert_eq!(info2.due_date, "None");
    assert_eq!(info2.date_created, "1970-01-01 00:00:00");
}

#[test]
fn header_urgency_classes() {
    let now: i64 = 1000000;
    let soon = task("soon", 1, Some(now + 100), 0);
    let h = soon.render_header(now);
    assert_eq!(h.title, "soon");
    assert_eq!(h.importance, 1);
    let (label, urgency) = h.due.expect("has a due date");
    assert_eq!(label, "1m");
    assert_eq!(urgency, Urgency::Critical);

    let later = task("later", 0, Some(now + 2 * 86400), 0);
    let (label2, urgency2) = later.render_header(now).due.unwrap();
    assert_eq!(label2, "2d");
    assert_eq!(urgency2, Urgency::Warning);

    let far = task("far", 0, Some(now + 14 * 86400), 0);
    let (label3, urgency3) = far.render_header(now).due.unwrap();
    assert_eq!(label3, "2w");
    assert_eq!(urgency3, Urgency::Normal);

    assert!(task("free", 0, None, 0).render_header(now).due.is_none());
}

#[test]
fn remove_keeps_relative_order() {
    let mut list = store(vec![
        task("a", 0, None, 1),
        task("b", 0, None, 2),
        task("c", 0, None, 3),
        task("d", 0, None, 4),
    ]);
    let removed = list.remove(2).expect("valid index");
    assert_eq!(removed.title, "b");
    assert_eq!(titles(&list), vec!["a", "c", "d"]);

    assert_eq!(list.remove(0).unwrap_err(), "Task ID must be a positive number!");
    assert_eq!(list.remove(4).unwrap_err(), "Last id is 3!");
    assert_eq!(titles(&list), vec!["a", "c", "d"]);
}

#[test]
fn remove_adjusts_focus() {
    let mut list = store(vec![task("a", 0, None, 1), task("b", 0, None, 2), task("c", 0, None, 3)]);
    list.last_shown = Some(2);
    list.remove(2).unwrap();
    assert_eq!(list.last_shown, None, "removing the focused task clears the focus");

    let mut list2 = store(vec![task("a", 0, None, 1), task("b", 0, None, 2), task("c", 0, None, 3)]);
    list2.last_shown = Some(3);
    list2.remove(1).unwrap();
    assert_eq!(list2.last_shown, Some(2), "a focus past the removal slides down");

    let mut list3 = store(vec![task("a", 0, None, 1), task("b", 0, None, 2)]);
    list3.last_shown = Some(1);
    list3.remove(2).unwrap();
    assert_eq!(list3.last_shown, Some(1), "a focus before the removal stays");
}

#[test]
fn sort_by_due_puts_missing_dates_last() {
    let mut list = store(vec![
        task("none1", 0, None, 1),
        task("late", 0, Some(9000), 2),
        task("none2", 0, None, 3),
        task("early", 0, Some(100), 4),
    ]);
    list.sort_by_due();
    assert_eq!(titles(&list), vec!["early", "late", "none1", "none2"]);
}

#[test]
fn sorts_are_stable_and_restore_creation_order() {
    let mut list = store(vec![
        task("first", 1, None, 10),
        task("second", 3, None, 20),
        task("third", 1, None, 30),
        task("fourth", 2, None, 40),
    ]);
    list.sort_by_importance();
    assert_eq!(
        titles(&list),
        vec!["second", "fourth", "first", "third"],
        "descending importance, ties in original order"
    );
    list.sort_by_date_created();
    assert_eq!(titles(&list), vec!["first", "second", "third", "fourth"]);
    list.sort_by_date_created();
    assert_eq!(titles(&list), vec!["first", "second", "third", "fourth"], "sorting is idempotent");
}

#[test]
fn filter_keeps_exact_matches_in_order() {
    let list = store(vec![
        task("a", 2, None, 1),
        task("b", 1, None, 2),
        task("c", 2, None, 3),
    ]);
    let picked = list.get_by_priority(2);
    let names: Vec<String> = picked.iter().map(|t| t.title.clone()).collect();
    assert_eq!(names, vec!["a", "c"]);
    assert!(list.get_by_priority(0).is_empty());
}

#[test]
fn random_task_draws_from_the_store() {
    let empty = TaskList::new();
    assert!(empty.random_task().is_none());
    let list = store(vec![task("only", 0, None, 1)]);
    let got = list.random_task().expect("non-empty store");
    assert_eq!(got.title, "only");
    let pair = store(vec![task("x", 0, None, 1), task("y", 0, None, 2)]);
    let picked = TaskList::get_random(&pair.tasks);
    assert!(picked.title == "x" || picked.title == "y");
}

#[test]
fn sub_task_lookup_and_removal() {
    let mut parent = task("parent", 0, None, 1);
    parent.add_sub_task(task("s1", 1, None, 2));
    let mut list = store(vec![parent, task("other", 0, None, 3)]);
    list.add_sub_task(1, task("s2", 2, None, 4)).unwrap();
    assert_eq!(list.tasks[0].sub_tasks.len(), 2);
    assert_eq!(list.get_sub(1, 2).unwrap().title, "s2");
    assert_eq!(list.get_sub(1, 3).unwrap_err(), "Last id is 2!");
    assert_eq!(list.get_sub(9, 1).unwrap_err(), "Last id is 2!");
    assert_eq!(list.get(2).unwrap().title, "other");
    assert_eq!(list.add_sub_task(3, task("s3", 0, None, 5)).unwrap_err(), "Last id is 2!");

    let removed = list.remove_sub(1, 1).expect("valid sub index");
    assert_eq!(removed.title, "s1");
    let names: Vec<String> = list.tasks[0].sub_tasks.iter().map(|t| t.title.clone()).collect();
    assert_eq!(names, vec!["s2"]);
}

#[test]
fn sort_by_due_is_stable_for_equal_dates() {
    let mut list = store(vec![
        task("b-late", 0, Some(900), 1),
        task("tie-one", 0, Some(500), 2),
        task("tie-two", 0, Some(500), 3),
        task("none", 0, None, 4),
        task("tie-three", 0, Some(500), 5),
    ]);
    list.sort_by_due();
    assert_eq!(
        titles(&list),
        vec!["tie-one", "tie-two", "tie-three", "b-late", "none"],
        "equal due dates keep their original relative order"
    );
}

#[test]
fn boundary_rank_round_trips() {
    let list = store(vec![task("max rank", 3, Some(tasklist::date::TS_MAX), 0)]);
    let back = TaskList::deserialize(&list.serialize()).expect("boundary values are storable");
    assert_eq!(back.tasks[0].importance, 3);
    assert_eq!(back.tasks[0].due_date, Some(tasklist::date::TS_MAX));
    assert_eq!(back.tasks[0].date_created, 0);
}

#[test]
fn sorted_copies_leave_the_store_alone() {
    let list = store(vec![task("low", 0, Some(50), 1), task("high", 3, None, 2)]);
    let by_priority = list.sorted_by_priority();
    assert_eq!(by_priority[0].title, "high");
    let by_due = list.sorted_by_due();
    assert_eq!(by_due[0].title, "low");
    assert_eq!(titles(&list), vec!["low", "high"]);
}
