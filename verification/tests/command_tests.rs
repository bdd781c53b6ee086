use tasklist::commands::{add_target, apply_add, apply_edit, execute_info, execute_remove,
    execute_show, execute_sort, find_command, quit_message, saves_after, unknown_command_message,
    AddTarget, CmdKind, Commands, ShowView};
use tasklist::store::TaskList;
use tasklist::task::Task;
use tasklist::text::{lower_str, parse_index, split_two};

fn task(title: &str, importance: u8, due: Option<i64>, created: i64) -> Task {
    Task::with_created(title.to_string(), None, importance, due, created)
}

fn store(tasks: Vec<Task>) -> TaskList {
    TaskList { tasks, last_shown: None }
}

fn titles(list: &TaskList) -> Vec<String> {
    list.tasks.iter().map(|t| t.title.clone()).collect()
}

#[test]
fn every_alias_resolves_to_exactly_one_command() {
    let table: [(&str, CmdKind); 14] = [
        ("add", CmdKind::Add),
        ("a", CmdKind::Add),
        ("edit", CmdKind::Edit),
        ("e", CmdKind::Edit),
        ("show", CmdKind::Show),
        ("s", CmdKind::Show),
        ("info", CmdKind::Info),
        ("i", CmdKind::Info),
        ("remove", CmdKind::Remove),
        ("r", CmdKind::Remove),
        ("sort", CmdKind::Sort),
        ("quit", CmdKind::Quit),
        ("exit", CmdKind::Quit),
        ("q", CmdKind::Quit),
    ];
    for (kw, kind) in table.iter() {
        assert_eq!(find_command(kw), Some(*kind), "alias {} must name its command", kw);
    }
    assert_eq!(find_command("help"), None);
    assert_eq!(find_command(""), None);
    // the catalog lists each alias under exactly one command
    let catalog = Commands::new();
    assert_eq!(catalog.commands.len(), 7);
    for entry in catalog.commands.iter() {
        for kw in entry.keywords.iter() {
            assert_eq!(find_command(kw), Some(entry.kind));
        }
    }
}

#[test]
fn tokenizing_and_lowercasing() {
    let (cmd, arg) = split_two("  Show   2  extra");
    assert_eq!(cmd, "Show");
    assert_eq!(arg, "2");
    let (only, none) = split_two("sort");
    assert_eq!(only, "sort");
    assert_eq!(none, "");
    assert_eq!(lower_str("ReMoVe 3"), "remove 3");
    assert_eq!(parse_index("12"), 12);
    assert_eq!(parse_index("007"), 7);
    assert_eq!(parse_index(""), 0);
    assert_eq!(parse_index("x2"), 0);
    assert_eq!(parse_index("99999999999999999999999"), 0);
}

#[test]
fn show_on_empty_store_fails_and_changes_nothing() {
    let mut list = TaskList::new();
    let r = execute_show(&mut list, "", 1000);
    match r {
        Err(m) => assert_eq!(m, "No tasks to show!"),
        Ok(_) => panic!("an empty store has nothing to show"),
    }
    assert!(list.tasks.is_empty());
    assert_eq!(list.last_shown, None);
}

#[test]
fn show_sets_and_uses_the_focus() {
    let mut parent = task("parent", 1, None, 1);
    parent.add_sub_task(task("inner", 0, None, 2));
    let mut list = store(vec![parent, task("second", 0, None, 3)]);

    // showing everything clears the focus
    list.last_shown = Some(2);
    match execute_show(&mut list, "", 1000) {
        Ok(ShowView::All(headers)) => {
            assert_eq!(headers.len(), 2);
            assert_eq!(headers[0].title, "parent");
            assert_eq!(headers[1].title, "second");
        },
        _ => panic!("show with no argument renders all headers"),
    }
    assert_eq!(list.last_shown, None);

    // showing one task takes the focus
    match execute_show(&mut list, "1", 1000) {
        Ok(ShowView::One(detail)) => {
            assert_eq!(detail.header.title, "parent");
            assert_eq!(detail.sub_headers.len(), 1);
            assert_eq!(detail.sub_headers[0].title, "inner");
        },
        _ => panic!("show with an index renders one detail"),
    }
    assert_eq!(list.last_shown, Some(1));

    // while focused, the index addresses the sub-tasks
    match execute_show(&mut list, "1", 1000) {
        Ok(ShowView::One(detail)) => assert_eq!(detail.header.title, "inner"),
        _ => panic!("a focused show addresses sub-tasks"),
    }
    assert_eq!(list.last_shown, Some(1), "showing a sub-task keeps the focus");
    match execute_show(&mut list, "2", 1000) {
        Err(m) => assert_eq!(m, "Last id is 1!"),
        _ => panic!("the sub-task range is enforced"),
    }
    match execute_show(&mut list, "0", 1000) {
        Err(m) => assert_eq!(m, "Task ID must be a positive number!"),
        _ => panic!("zero is never a valid index"),
    }
}

#[test]
fn info_renders_and_takes_focus() {
    let mut list = store(vec![task("a", 2, None, 7)]);
    let info = execute_info(&mut list, "1").expect("valid index");
    assert_eq!(info.title, "a");
    assert_eq!(info.importance, 2);
    assert_eq!(list.last_shown, Some(1));
    assert_eq!(execute_info(&mut list, "2").unwrap_err(), "Last id is 1!");
    assert_eq!(execute_info(&mut list, "").unwrap_err(), "Task ID must be a positive number!");
}

#[test]
fn remove_too_far_reports_last_id() {
    let mut list = store(vec![
        task("a", 0, None, 1),
        task("b", 0, None, 2),
        task("c", 0, None, 3),
    ]);
    match execute_remove(&mut list, "5") {
        Err(m) => assert_eq!(m, "Last id is 3!"),
        Ok(_) => panic!("index five exceeds a three-task store"),
    }
    assert_eq!(titles(&list), vec!["a", "b", "c"]);
    assert_eq!(list.last_shown, None);
}

#[test]
fn remove_is_rescoped_while_focused_on_the_same_index() {
    let mut parent = task("parent", 0, None, 1);
    parent.add_sub_task(task("s1", 0, None, 2));
    parent.add_sub_task(task("s2", 0, None, 3));
    let mut list = store(vec![parent, task("second", 0, None, 4)]);
    list.last_shown = Some(1);
    let msg = execute_remove(&mut list, "1").expect("sub-task one exists");
    assert_eq!(msg, "Task s1 removed");
    assert_eq!(titles(&list), vec!["parent", "second"]);
    assert_eq!(list.tasks[0].sub_tasks.len(), 1);

    // a focus on a different index removes at the top level
    let msg2 = execute_remove(&mut list, "2").expect("top-level two exists");
    assert_eq!(msg2, "Task second removed");
    assert_eq!(titles(&list), vec!["parent"]);
}

#[test]
fn sort_due_on_single_task_keeps_order() {
    let mut list = store(vec![task("Buy milk", 0, None, 10)]);
    let msg = execute_sort(&mut list, "due").expect("a valid sort type");
    assert_eq!(msg, "Sorted by due date.");
    assert_eq!(titles(&list), vec!["Buy milk"]);
}

#[test]
fn sort_messages_and_errors() {
    let mut list = store(vec![task("b", 1, None, 20), task("a", 3, None, 10)]);
    assert_eq!(execute_sort(&mut list, "i").unwrap(), "Sorted by importance.");
    assert_eq!(titles(&list), vec!["a", "b"]);
    assert_eq!(execute_sort(&mut list, "").unwrap(), "Sorted by creation date");
    assert_eq!(titles(&list), vec!["a", "b"]);
    assert_eq!(execute_sort(&mut list, "c").unwrap(), "Sorted by creation date");
    assert_eq!(execute_sort(&mut list, "backwards").unwrap_err(), "Invalid sort type!");
    assert_eq!(titles(&list), vec!["a", "b"]);
}

#[test]
fn add_resolves_target_and_appends() {
    let mut list = store(vec![task("parent", 0, None, 1)]);
    assert_eq!(add_target(&list, ""), Ok(AddTarget::Top));
    list.last_shown = Some(1);
    assert_eq!(add_target(&list, ""), Ok(AddTarget::Sub(1)));
    assert_eq!(add_target(&list, "1"), Ok(AddTarget::Sub(1)));
    match add_target(&list, "4") {
        Err(m) => assert_eq!(m, "Task index must be a number between 1 and 1!"),
        Ok(_) => panic!("index four exceeds a one-task store"),
    }
    let msg = apply_add(&mut list, AddTarget::Sub(1), task("child", 1, None, 5)).unwrap();
    assert_eq!(msg, "Task added");
    assert_eq!(list.tasks[0].sub_tasks[0].title, "child");
    let msg2 = apply_add(&mut list, AddTarget::Top, task("next", 0, None, 6)).unwrap();
    assert_eq!(msg2, "Task added");
    assert_eq!(titles(&list), vec!["parent", "next"]);
}

#[test]
fn edit_replaces_fields_but_keeps_creation_and_subs() {
    let mut parent = task("old title", 1, Some(500), 42);
    parent.add_sub_task(task("kept", 0, None, 43));
    let mut list = store(vec![parent]);
    let msg = apply_edit(
        &mut list,
        1,
        "new title".to_string(),
        Some("new description".to_string()),
        3,
        None,
    ).expect("valid index");
    assert_eq!(msg, "Task edited");
    let t = &list.tasks[0];
    assert_eq!(t.title, "new title");
    assert_eq!(t.description.as_deref(), Some("new description"));
    assert_eq!(t.importance, 3);
    assert_eq!(t.due_date, None);
    assert_eq!(t.date_created, 42, "the creation stamp is preserved");
    assert_eq!(t.sub_tasks.len(), 1, "the sub-tasks are preserved");
    assert_eq!(
        apply_edit(&mut list, 2, "x".to_string(), None, 0, None).unwrap_err(),
        "Last id is 1!"
    );
    assert_eq!(
        apply_edit(&mut list, 0, "x".to_string(), None, 0, None).unwrap_err(),
        "Task ID must be a positive number!"
    );
}

#[test]
fn dispatch_extras() {
    assert_eq!(quit_message(), "Good luck with your tasks ;)");
    assert_eq!(unknown_command_message("frobnicate"), "Unknown command: frobnicate");
    assert!(saves_after(CmdKind::Add));
    assert!(saves_after(CmdKind::Edit));
    assert!(saves_after(CmdKind::Remove));
    assert!(saves_after(CmdKind::Sort));
    assert!(!saves_after(CmdKind::Show));
    assert!(!saves_after(CmdKind::Info));
    assert!(!saves_after(CmdKind::Quit));
}
