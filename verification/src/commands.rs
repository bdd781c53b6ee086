//! The command set and its dispatcher: a fixed catalog of named
//! operations over the store, each reachable through one or more
//! case-insensitive keyword aliases, validating its argument and
//! reporting a success message or a failure reason.

use vstd::prelude::*;

use crate::IMPORTANCE_MAX;
use crate::date::ts_in_range;
use crate::task::{Task, TaskView, HeaderView, DetailView, InfoView, header_matches,
    detail_matches, info_matches, leaf_part, leaf_expand, leaf_of, opt_str_view, opt_ts_view};
use crate::store::{TaskList, last_id_text, positive_text};
use crate::sort::{SortKey, sort_of};
use crate::text::{index_of_text, dec_digits, str_eq, parse_index, u64_to_string};

verus! {

/// The seven commands.
#[derive(Clone, Copy, PartialEq, Eq, Structural, Debug)]
pub enum CmdKind {
    Add,
    Edit,
    Show,
    Info,
    Remove,
    Sort,
    Quit,
}

/// The keyword aliases of each command. No alias is shared: see
/// `lemma_keywords_disjoint`.
pub open spec fn is_keyword_of(k: CmdKind, kw: Seq<char>) -> bool {
    match k {
        CmdKind::Add => kw == "add"@ || kw == "a"@,
        CmdKind::Edit => kw == "edit"@ || kw == "e"@,
        CmdKind::Show => kw == "show"@ || kw == "s"@,
        CmdKind::Info => kw == "info"@ || kw == "i"@,
        CmdKind::Remove => kw == "remove"@ || kw == "r"@,
        CmdKind::Sort => kw == "sort"@,
        CmdKind::Quit => kw == "quit"@ || kw == "exit"@ || kw == "q"@,
    }
}

/// Every keyword names exactly one command: no two commands share an
/// alias, so dispatch can never be ambiguous.
pub proof fn lemma_keywords_disjoint(k1: CmdKind, k2: CmdKind, kw: Seq<char>)
    requires
        is_keyword_of(k1, kw),
        is_keyword_of(k2, kw),
    ensures
        k1 == k2,
{
    reveal_strlit("add");
    reveal_strlit("a");
    reveal_strlit("edit");
    reveal_strlit("e");
    reveal_strlit("show");
    reveal_strlit("s");
    reveal_strlit("info");
    reveal_strlit("i");
    reveal_strlit("remove");
    reveal_strlit("r");
    reveal_strlit("sort");
    reveal_strlit("quit");
    reveal_strlit("exit");
    reveal_strlit("q");
    assert("add"@.len() == 3 && "a"@.len() == 1 && "edit"@.len() == 4 && "e"@.len() == 1
        && "show"@.len() == 4 && "s"@.len() == 1 && "info"@.len() == 4 && "i"@.len() == 1
        && "remove"@.len() == 6 && "r"@.len() == 1 && "sort"@.len() == 4 && "quit"@.len() == 4
        && "exit"@.len() == 4 && "q"@.len() == 1);
    assert("a"@[0] == 'a' && "e"@[0] == 'e' && "s"@[0] == 's' && "i"@[0] == 'i' && "r"@[0] == 'r'
        && "q"@[0] == 'q');
    assert("edit"@[0] == 'e' && "show"@[0] == 's' && "info"@[0] == 'i' && "sort"@[0] == 's'
        && "quit"@[0] == 'q' && "exit"@[0] == 'e');
    assert("show"@[1] == 'h' && "sort"@[1] == 'o' && "edit"@[1] == 'd' && "exit"@[1] == 'x');
}

/// Finds the command a keyword names.
pub fn find_command(kw: &str) -> (r: Option<CmdKind>)
    ensures
        r matches Some(k) ==> is_keyword_of(k, kw@),
        r is None ==> forall|k: CmdKind| !is_keyword_of(k, kw@),
{
    if str_eq(kw, "add") || str_eq(kw, "a") {
        Option::Some(CmdKind::Add)
    } else if str_eq(kw, "edit") || str_eq(kw, "e") {
        Option::Some(CmdKind::Edit)
    } else if str_eq(kw, "show") || str_eq(kw, "s") {
        Option::Some(CmdKind::Show)
    } else if str_eq(kw, "info") || str_eq(kw, "i") {
        Option::Some(CmdKind::Info)
    } else if str_eq(kw, "remove") || str_eq(kw, "r") {
        Option::Some(CmdKind::Remove)
    } else if str_eq(kw, "sort") {
        Option::Some(CmdKind::Sort)
    } else if str_eq(kw, "quit") || str_eq(kw, "exit") || str_eq(kw, "q") {
        Option::Some(CmdKind::Quit)
    } else {
        Option::None
    }
}

/// One entry of the command catalog: the command, its keyword aliases
/// in dispatch order, and its usage line.
pub struct CommandInfo {
    pub kind: CmdKind,
    pub keywords: Vec<String>,
    pub help: String,
}

/// The fixed command catalog, built once at startup.
pub struct Commands {
    pub commands: Vec<CommandInfo>,
}

impl Commands {
    /// The catalog holds the seven commands in dispatch order and each
    /// entry's keywords are aliases of its command.
    pub open spec fn wf(&self) -> bool {
        &&& self.commands@.len() == 7
        &&& self.commands@[0].kind == CmdKind::Add
        &&& self.commands@[1].kind == CmdKind::Edit
        &&& self.commands@[2].kind == CmdKind::Show
        &&& self.commands@[3].kind == CmdKind::Info
        &&& self.commands@[4].kind == CmdKind::Remove
        &&& self.commands@[5].kind == CmdKind::Sort
        &&& self.commands@[6].kind == CmdKind::Quit
        &&& (forall|i: int, j: int|
            0 <= i < 7 && 0 <= j < self.commands@[i].keywords@.len() ==> is_keyword_of(
                #[trigger] self.commands@[i].kind,
                #[trigger] self.commands@[i].keywords@[j]@,
            ))
    }

    /// Builds the catalog.
    pub fn new() -> (r: Commands)
        ensures
            r.wf(),
    {
        let mut commands: Vec<CommandInfo> = Vec::new();
        commands.push(make_entry(CmdKind::Add, "add", "a",
            "add [index] - adds a new task. If index is specified, it will add a sub task to the task at the specified index."));
        commands.push(make_entry(CmdKind::Edit, "edit", "e",
            "edit [index] - edits the task at the specified index. If no index is specified, it will edit the last shown task."));
        commands.push(make_entry(CmdKind::Show, "show", "s",
            "show [index] - shows the task at the specified index. If no index is specified, it will show all the tasks."));
        commands.push(make_entry(CmdKind::Info, "info", "i",
            "info [index] - shows all stored information about the task at the specified index."));
        commands.push(make_entry(CmdKind::Remove, "remove", "r",
            "remove [index] - removes the task at the specified index."));
        commands.push(make_sort_entry());
        commands.push(make_quit_entry());
        Commands { commands }
    }
}

fn make_entry(kind: CmdKind, kw1: &str, kw2: &str, help: &str) -> (r: CommandInfo)
    requires
        is_keyword_of(kind, kw1@),
        is_keyword_of(kind, kw2@),
    ensures
        r.kind == kind,
        forall|j: int| 0 <= j < r.keywords@.len() ==> is_keyword_of(kind, #[trigger] r.keywords@[j]@),
{
    let mut keywords: Vec<String> = Vec::new();
    keywords.push(String::from_str(kw1));
    keywords.push(String::from_str(kw2));
    CommandInfo { kind, keywords, help: String::from_str(help) }
}

fn make_sort_entry() -> (r: CommandInfo)
    ensures
        r.kind == CmdKind::Sort,
        forall|j: int|
            0 <= j < r.keywords@.len() ==> is_keyword_of(CmdKind::Sort, #[trigger] r.keywords@[j]@),
{
    let mut keywords: Vec<String> = Vec::new();
    keywords.push(String::from_str("sort"));
    CommandInfo {
        kind: CmdKind::Sort,
        keywords,
        help: String::from_str(
            "sort [type] - sorts all tasks by the specified criteria. Type can be: created, due, importance. If no type is specified, it will sort by created.",
        ),
    }
}

fn make_quit_entry() -> (r: CommandInfo)
    ensures
        r.kind == CmdKind::Quit,
        forall|j: int|
            0 <= j < r.keywords@.len() ==> is_keyword_of(CmdKind::Quit, #[trigger] r.keywords@[j]@),
{
    let mut keywords: Vec<String> = Vec::new();
    keywords.push(String::from_str("quit"));
    keywords.push(String::from_str("exit"));
    keywords.push(String::from_str("q"));
    CommandInfo {
        kind: CmdKind::Quit,
        keywords,
        help: String::from_str("quit - Exits the program."),
    }
}

/// Whether a command writes the store back to its file on success.
pub fn saves_after(k: CmdKind) -> (r: bool)
    ensures
        r == (k is Add || k is Edit || k is Remove || k is Sort),
{
    match k {
        CmdKind::Add => true,
        CmdKind::Edit => true,
        CmdKind::Remove => true,
        CmdKind::Sort => true,
        _ => false,
    }
}

/// The farewell the quit command emits.
pub fn quit_message() -> (r: String)
    ensures
        r@ == "Good luck with your tasks ;)"@,
{
    String::from_str("Good luck with your tasks ;)")
}

/// The report for a keyword no command carries.
pub fn unknown_command_message(kw: &str) -> (r: String)
    ensures
        r@ == "Unknown command: "@ + kw@,
{
    String::from_str("Unknown command: ").concat(kw)
}

// ---------------------------------------------------------------------
// The commands themselves.
// ---------------------------------------------------------------------

/// What the show command renders on success.
pub enum ShowView {
    /// Every top-level task's header, in order.
    All(Vec<HeaderView>),
    /// One task's detail block.
    One(DetailView),
}

/// The error for an add argument outside the top-level range.
pub open spec fn add_index_err_text(len: int) -> Seq<char> {
    "Task index must be a number between 1 and "@ + dec_digits(len as nat) + "!"@
}

/// The success message for a removal.
pub open spec fn removed_text(title: Seq<char>) -> Seq<char> {
    "Task "@ + title + " removed"@
}

fn add_index_error(len: usize) -> (r: String)
    ensures
        r@ == add_index_err_text(len as int),
{
    String::from_str("Task index must be a number between 1 and ").concat(
        u64_to_string(len as u64).as_str(),
    ).concat("!")
}

fn removed_message(title: &String) -> (r: String)
    ensures
        r@ == removed_text(title@),
{
    String::from_str("Task ").concat(title.as_str()).concat(" removed")
}

/// Shows the store: with no argument it clears the focus and renders
/// every header; with an index it renders one task's detail and takes
/// the focus, or, while the focus is set, renders one of the focused
/// task's sub-tasks without moving the focus.
pub fn execute_show(list: &mut TaskList, arg: &str, now: i64) -> (r: Result<ShowView, String>)
    requires
        old(list).wf(),
        ts_in_range(now as int),
    ensures
        final(list).wf(),
        final(list).tasks == old(list).tasks,
        old(list).views().len() == 0 ==> (r matches Err(m) && m@ == "No tasks to show!"@) && final(list).last_shown == old(list).last_shown,
        old(list).views().len() > 0 && arg@.len() == 0 ==> (r matches Ok(sv)
            && sv matches ShowView::All(hs) && hs@.len() == old(list).views().len() && (forall|
            i: int,
        |
            0 <= i < old(list).views().len() ==> header_matches(
                #[trigger] hs@[i],
                leaf_part(old(list).views()[i]),
                now as int,
            ))) && final(list).last_shown is None,
        old(list).views().len() > 0 && arg@.len() > 0 && old(list).last_shown is Some ==> final(list).last_shown == old(list).last_shown && {
            let n = index_of_text(arg@);
            let subs = old(list).views()[old(list).last_shown->0 - 1].subs;
            &&& (1 <= n <= subs.len() ==> (r matches Ok(sv) && sv matches ShowView::One(d)
                && detail_matches(d, leaf_expand(subs[n - 1]), now as int)))
            &&& (n > subs.len() ==> (r matches Err(m) && m@ == last_id_text(subs.len() as int)))
            &&& (n == 0 ==> (r matches Err(m) && m@ == positive_text()))
        },
        old(list).views().len() > 0 && arg@.len() > 0 && old(list).last_shown is None ==> {
            let n = index_of_text(arg@);
            let len = old(list).views().len();
            &&& (1 <= n <= len ==> (r matches Ok(sv) && sv matches ShowView::One(d)
                && detail_matches(d, old(list).views()[n - 1], now as int) && final(list).last_shown == Option::Some(n as usize)))
            &&& (n > len ==> (r matches Err(m) && m@ == last_id_text(len as int)) && final(list).last_shown is None)
            &&& (n == 0 ==> (r matches Err(m) && m@ == positive_text()) && final(list).last_shown is None)
        },
{
    let n_tasks = list.tasks.len();
    if n_tasks == 0 {
        return Err(String::from_str("No tasks to show!"));
    }
    let alen = arg.unicode_len();
    if alen == 0 {
        list.clear_focus();
        let hs = list.render_headers(now);
        return Ok(ShowView::All(hs));
    }
    let n = parse_index(arg);
    match list.last_shown {
        Option::Some(f) => {
            let parent = &list.tasks[f - 1];
            let sub_len = parent.sub_tasks.len();
            if 1 <= n && n <= sub_len as u64 {
                let sub = &parent.sub_tasks[(n - 1) as usize];
                proof {
                    assert(parent@.subs[n - 1] == leaf_of(*sub));
                    assert(crate::task::leaf_wf(leaf_of(*sub)));
                    assert(sub.wf()) by {
                        assert(sub.sub_tasks@.len() == 0);
                        assert(sub@.subs =~= Seq::<crate::task::LeafView>::empty());
                    }
                }
                let d = sub.render_detail(now);
                proof {
                    assert(sub@ =~= leaf_expand(old(list).views()[f - 1].subs[n - 1]));
                }
                Ok(ShowView::One(d))
            } else if n > sub_len as u64 {
                Err(crate::store::last_id_error(sub_len))
            } else {
                Err(String::from_str("Task ID must be a positive number!"))
            }
        },
        Option::None => {
            if 1 <= n && n <= n_tasks as u64 {
                let d = list.tasks[(n - 1) as usize].render_detail(now);
                list.set_focus(n as usize);
                Ok(ShowView::One(d))
            } else if n > n_tasks as u64 {
                Err(crate::store::last_id_error(n_tasks))
            } else {
                Err(String::from_str("Task ID must be a positive number!"))
            }
        },
    }
}

/// Shows the full info block of one top-level task and takes the
/// focus.
pub fn execute_info(list: &mut TaskList, arg: &str) -> (r: Result<InfoView, String>)
    requires
        old(list).wf(),
    ensures
        final(list).wf(),
        final(list).tasks == old(list).tasks,
        ({
            let n = index_of_text(arg@);
            let len = old(list).views().len();
            &&& (1 <= n <= len ==> (r matches Ok(iv) && info_matches(iv, old(list).views()[n - 1])
                && final(list).last_shown == Option::Some(n as usize)))
            &&& (n > len ==> (r matches Err(m) && m@ == last_id_text(len as int)) && final(list).last_shown == old(list).last_shown)
            &&& (n == 0 ==> (r matches Err(m) && m@ == positive_text()) && final(list).last_shown == old(list).last_shown)
        }),
{
    let n = parse_index(arg);
    let len = list.tasks.len();
    if 1 <= n && n <= len as u64 {
        let iv = list.tasks[(n - 1) as usize].render_info();
        list.set_focus(n as usize);
        Ok(iv)
    } else if n > len as u64 {
        Err(crate::store::last_id_error(len))
    } else {
        Err(String::from_str("Task ID must be a positive number!"))
    }
}

/// Whether a remove argument is re-scoped to the focused task's
/// sub-tasks: the focus names the same index and that index fits the
/// sub-task list.
pub open spec fn remove_sub_scope(l: TaskList, n: nat) -> bool {
    &&& l.last_shown matches Some(f) && f as nat == n
    &&& 1 <= n <= l.views().len()
    &&& n <= l.views()[n as int - 1].subs.len()
}

/// Removes the addressed task. While the focus is set to the same
/// index, the index addresses a sub-task of the focused task instead.
pub fn execute_remove(list: &mut TaskList, arg: &str) -> (r: Result<String, String>)
    requires
        old(list).wf(),
    ensures
        final(list).wf(),
        ({
            let n = index_of_text(arg@);
            let len = old(list).views().len();
            &&& (remove_sub_scope(*old(list), n) ==> (r matches Ok(m) && m@ == removed_text(
                old(list).views()[n - 1].subs[n - 1].title,
            )) && final(list).views() == old(list).views().update(
                n as int - 1,
                TaskView {
                    subs: old(list).views()[n - 1].subs.remove(n - 1),
                    ..old(list).views()[n - 1]
                },
            ) && final(list).last_shown == old(list).last_shown)
            &&& (!remove_sub_scope(*old(list), n) && 1 <= n <= len ==> (r matches Ok(m) && m@
                == removed_text(old(list).views()[n - 1].title)) && final(list).views() == old(list).views().remove(n as int - 1) && final(list).last_shown == (match old(list).last_shown {
                Option::Some(f) => if f as nat == n {
                    Option::<usize>::None
                } else if f as nat > n {
                    Option::Some((f - 1) as usize)
                } else {
                    Option::Some(f)
                },
                Option::None => Option::<usize>::None,
            }))
            &&& (!remove_sub_scope(*old(list), n) && n > len ==> (r matches Err(m) && m@
                == last_id_text(len as int)) && *final(list) == *old(list))
            &&& (!remove_sub_scope(*old(list), n) && n == 0 ==> (r matches Err(m) && m@
                == positive_text()) && *final(list) == *old(list))
        }),
{
    let n = parse_index(arg);
    let mut sub_scope = false;
    match list.last_shown {
        Option::Some(f) => {
            if f as u64 == n && 1 <= n {
                let sl = list.tasks[(n - 1) as usize].sub_tasks.len();
                if n <= sl as u64 {
                    sub_scope = true;
                }
            }
        },
        Option::None => {},
    }
    if sub_scope {
        match list.remove_sub(n, n) {
            Ok(t) => Ok(removed_message(&t.title)),
            Err(m) => Err(m),
        }
    } else {
        match list.remove(n) {
            Ok(t) => Ok(removed_message(&t.title)),
            Err(m) => Err(m),
        }
    }
}

/// Sorts the store by the named key; an empty argument means creation
/// date. The focus is cleared because positions change.
pub fn execute_sort(list: &mut TaskList, arg: &str) -> (r: Result<String, String>)
    requires
        old(list).wf(),
    ensures
        final(list).wf(),
        (arg@.len() == 0 || arg@ == "created"@ || arg@ == "c"@) ==> (r matches Ok(m) && m@
            == "Sorted by creation date"@) && final(list).views() == sort_of(
            old(list).views(),
            SortKey::Created,
        ) && final(list).last_shown is None,
        (arg@ == "due"@ || arg@ == "d"@) ==> (r matches Ok(m) && m@ == "Sorted by due date."@)
            && final(list).views() == sort_of(old(list).views(), SortKey::Due) && final(list).last_shown is None,
        (arg@ == "importance"@ || arg@ == "i"@) ==> (r matches Ok(m) && m@
            == "Sorted by importance."@) && final(list).views() == sort_of(
            old(list).views(),
            SortKey::Importance,
        ) && final(list).last_shown is None,
        !(arg@.len() == 0 || arg@ == "created"@ || arg@ == "c"@ || arg@ == "due"@ || arg@ == "d"@
            || arg@ == "importance"@ || arg@ == "i"@) ==> (r matches Err(m) && m@
            == "Invalid sort type!"@) && *final(list) == *old(list),
{
    proof {
        reveal_strlit("created");
        reveal_strlit("c");
        reveal_strlit("due");
        reveal_strlit("d");
        reveal_strlit("importance");
        reveal_strlit("i");
        assert("created"@.len() == 7 && "c"@.len() == 1 && "due"@.len() == 3 && "d"@.len() == 1
            && "importance"@.len() == 10 && "i"@.len() == 1);
        assert("c"@[0] == 'c' && "d"@[0] == 'd' && "i"@[0] == 'i');
        assert("due"@[0] == 'd' && "created"@[0] == 'c' && "importance"@[0] == 'i');
    }
    let alen = arg.unicode_len();
    if alen == 0 || str_eq(arg, "created") || str_eq(arg, "c") {
        proof {
            if arg@.len() == 0 {
                assert(arg@ =~= Seq::<char>::empty());
            }
        }
        list.sort_by_date_created();
        Ok(String::from_str("Sorted by creation date"))
    } else if str_eq(arg, "due") || str_eq(arg, "d") {
        list.sort_by_due();
        Ok(String::from_str("Sorted by due date."))
    } else if str_eq(arg, "importance") || str_eq(arg, "i") {
        list.sort_by_importance();
        Ok(String::from_str("Sorted by importance."))
    } else {
        Err(String::from_str("Invalid sort type!"))
    }
}

/// Where the add command will put its new task.
#[derive(Clone, Copy, PartialEq, Eq, Structural, Debug)]
pub enum AddTarget {
    /// Appended to the top level.
    Top,
    /// Appended to the sub-tasks of the task with this 1-based index.
    Sub(u64),
}

/// Whether a target points inside the store.
pub open spec fn target_valid(l: TaskList, t: AddTarget) -> bool {
    match t {
        AddTarget::Top => true,
        AddTarget::Sub(n) => 1 <= n <= l.views().len(),
    }
}

/// Resolves where the add command will put its task: with no argument,
/// under the focused task if the focus is set and at the top level
/// otherwise; with an index argument, under that task.
pub fn add_target(list: &TaskList, arg: &str) -> (r: Result<AddTarget, String>)
    requires
        list.wf(),
    ensures
        arg@.len() == 0 && list.last_shown is Some ==> r == Result::<AddTarget, String>::Ok(
            AddTarget::Sub(list.last_shown->0 as u64),
        ),
        arg@.len() == 0 && list.last_shown is None ==> r == Result::<AddTarget, String>::Ok(
            AddTarget::Top,
        ),
        arg@.len() > 0 && 1 <= index_of_text(arg@) <= list.views().len() ==> r == Result::<
            AddTarget,
            String,
        >::Ok(AddTarget::Sub(index_of_text(arg@) as u64)),
        arg@.len() > 0 && !(1 <= index_of_text(arg@) <= list.views().len()) ==> (r matches Err(m)
            && m@ == add_index_err_text(list.views().len() as int)),
        r matches Ok(t) ==> target_valid(*list, t),
{
    let alen = arg.unicode_len();
    if alen == 0 {
        match list.last_shown {
            Option::Some(f) => Ok(AddTarget::Sub(f as u64)),
            Option::None => Ok(AddTarget::Top),
        }
    } else {
        let n = parse_index(arg);
        if 1 <= n && n <= list.tasks.len() as u64 {
            Ok(AddTarget::Sub(n))
        } else {
            Err(add_index_error(list.tasks.len()))
        }
    }
}

/// Applies the add command: appends the prompted task at its resolved
/// target.
pub fn apply_add(list: &mut TaskList, target: AddTarget, task: Task) -> (r: Result<
    String,
    String,
>)
    requires
        old(list).wf(),
        target_valid(*old(list), target),
        task.wf(),
        task.sub_tasks@.len() == 0,
    ensures
        final(list).wf(),
        r matches Ok(m) && m@ == "Task added"@,
        final(list).last_shown == old(list).last_shown,
        target is Top ==> final(list).views() == old(list).views().push(task@),
        target matches AddTarget::Sub(n) ==> final(list).views() == old(list).views().update(
            n as int - 1,
            TaskView {
                subs: old(list).views()[n - 1].subs.push(leaf_of(task)),
                ..old(list).views()[n - 1]
            },
        ),
{
    match target {
        AddTarget::Top => {
            list.add_task(task);
            Ok(String::from_str("Task added"))
        },
        AddTarget::Sub(n) => {
            let res = list.add_sub_task(n, task);
            proof {
                assert(res is Ok);
            }
            Ok(String::from_str("Task added"))
        },
    }
}

/// Applies the edit command: replaces the addressed task's title,
/// description, importance and due date, keeping its creation stamp
/// and its sub-tasks. The focus does not move: the task keeps its
/// position.
pub fn apply_edit(
    list: &mut TaskList,
    id: u64,
    title: String,
    description: Option<String>,
    importance: u8,
    due_date: Option<i64>,
) -> (r: Result<String, String>)
    requires
        old(list).wf(),
        importance <= IMPORTANCE_MAX,
        opt_ts_view(due_date) matches Some(d) ==> ts_in_range(d),
    ensures
        final(list).wf(),
        r is Ok <==> 1 <= id <= old(list).views().len(),
        r matches Ok(m) ==> m@ == "Task edited"@ && final(list).views() == old(list).views().update(
            id as int - 1,
            TaskView {
                title: title@,
                description: opt_str_view(description),
                importance: importance as int,
                due: opt_ts_view(due_date),
                ..old(list).views()[id - 1]
            },
        ),
        final(list).last_shown == old(list).last_shown,
        id > old(list).views().len() ==> (r matches Err(m) && m@ == last_id_text(
            old(list).views().len() as int,
        )) && *final(list) == *old(list),
        id == 0 ==> (r matches Err(m) && m@ == positive_text()) && *final(list) == *old(list),
{
    let len = list.tasks.len();
    if 1 <= id && id <= len as u64 {
        let i = (id - 1) as usize;
        let mut t = list.tasks.remove(i);
        t.title = title;
        t.description = description;
        t.importance = importance;
        t.due_date = due_date;
        list.tasks.insert(i, t);
        proof {
            assert(list.views() =~= old(list).views().update(
                id as int - 1,
                TaskView {
                    title: title@,
                    description: opt_str_view(description),
                    importance: importance as int,
                    due: opt_ts_view(due_date),
                    ..old(list).views()[id - 1]
                },
            ));
            assert forall|j: int|
                0 <= j < list.tasks@.len() implies (#[trigger] list.tasks@[j]).wf() by {
                if j != i {
                    assert(list.tasks@[j] == old(list).tasks@[j]);
                } else {
                    assert(old(list).tasks@[j].wf());
                    assert(list.tasks@[j].sub_tasks@ == old(list).tasks@[j].sub_tasks@);
                }
            }
        }
        Ok(String::from_str("Task edited"))
    } else if id > len as u64 {
        Err(crate::store::last_id_error(len))
    } else {
        Err(String::from_str("Task ID must be a positive number!"))
    }
}

} // verus!
