//! The task entity: a titled unit of work with an optional description,
//! an importance rank, an optional due date, a creation stamp and one
//! level of sub-tasks, together with its display projections.

use vstd::prelude::*;

use crate::IMPORTANCE_MAX;
use crate::date::{ts_in_range, ts_text, time_left_label, time_left_label_of, format_ts,
    now_in_range, TS_MAX, DAY_SECS, WEEK_SECS};

verus! {

/// The mathematical value of a sub-task: every stored field except the
/// sub-task list, which stays empty one level down.
#[verifier::ext_equal]
pub ghost struct LeafView {
    pub title: Seq<char>,
    pub description: Option<Seq<char>>,
    pub importance: int,
    pub due: Option<int>,
    pub created: int,
}

/// The mathematical value of a task: its fields and the values of its
/// sub-tasks in order.
#[verifier::ext_equal]
pub ghost struct TaskView {
    pub title: Seq<char>,
    pub description: Option<Seq<char>>,
    pub importance: int,
    pub due: Option<int>,
    pub created: int,
    pub subs: Seq<LeafView>,
}

/// The description as a sequence of characters, when present.
pub open spec fn opt_str_view(o: Option<String>) -> Option<Seq<char>> {
    match o {
        Option::None => Option::None,
        Option::Some(s) => Option::Some(s@),
    }
}

/// The due date as an unbounded integer, when present.
pub open spec fn opt_ts_view(o: Option<i64>) -> Option<int> {
    match o {
        Option::None => Option::None,
        Option::Some(t) => Option::Some(t as int),
    }
}

/// A titled unit of work.
#[derive(Debug)]
pub struct Task {
    pub title: String,
    pub description: Option<String>,
    pub importance: u8,
    pub due_date: Option<i64>,
    pub date_created: i64,
    pub sub_tasks: Vec<Task>,
}

/// The value of a task with its sub-task list ignored.
pub open spec fn leaf_of(t: Task) -> LeafView {
    LeafView {
        title: t.title@,
        description: opt_str_view(t.description),
        importance: t.importance as int,
        due: opt_ts_view(t.due_date),
        created: t.date_created as int,
    }
}

impl View for Task {
    type V = TaskView;

    open spec fn view(&self) -> TaskView {
        TaskView {
            title: self.title@,
            description: opt_str_view(self.description),
            importance: self.importance as int,
            due: opt_ts_view(self.due_date),
            created: self.date_created as int,
            subs: self.sub_tasks@.map_values(|s: Task| leaf_of(s)),
        }
    }
}

/// Field ranges every stored task obeys: the rank is at most
/// `IMPORTANCE_MAX` and the timestamps are storable.
pub open spec fn leaf_wf(l: LeafView) -> bool {
    &&& 0 <= l.importance <= IMPORTANCE_MAX
    &&& ts_in_range(l.created)
    &&& (l.due is Some ==> ts_in_range(l.due->0))
}

/// Field ranges for a task and all of its sub-tasks.
pub open spec fn task_view_wf(t: TaskView) -> bool {
    &&& 0 <= t.importance <= IMPORTANCE_MAX
    &&& ts_in_range(t.created)
    &&& (t.due is Some ==> ts_in_range(t.due->0))
    &&& (forall|i: int| 0 <= i < t.subs.len() ==> leaf_wf(#[trigger] t.subs[i]))
}

impl Task {
    /// A well-formed task: field ranges hold and nesting stops at one
    /// level, so a sub-task never has sub-tasks of its own.
    pub open spec fn wf(&self) -> bool {
        &&& task_view_wf(self@)
        &&& (forall|i: int|
            0 <= i < self.sub_tasks@.len() ==> (#[trigger] self.sub_tasks@[i]).sub_tasks@.len()
                == 0)
    }

    /// Builds a task with the given fields, stamped with the current
    /// time and an empty sub-task list. No validation happens here: the
    /// rank and due-date ranges are the caller's burden.
    pub fn new(title: String, description: Option<String>, importance: u8, due_date: Option<
        i64,
    >) -> (r: Task)
        requires
            importance <= IMPORTANCE_MAX,
            opt_ts_view(due_date) matches Some(d) ==> ts_in_range(d),
        ensures
            r.wf(),
            r@.title == title@,
            r@.description == opt_str_view(description),
            r@.importance == importance as int,
            r@.due == opt_ts_view(due_date),
            r@.subs =~= Seq::<LeafView>::empty(),
            ts_in_range(r@.created),
    {
        let r = Task {
            title,
            description,
            importance,
            due_date,
            date_created: now_in_range(),
            sub_tasks: Vec::new(),
        };
        proof {
            assert(r@.subs =~= Seq::<LeafView>::empty());
        }
        r
    }

    /// Builds a task with an explicit creation stamp and an empty
    /// sub-task list.
    pub fn with_created(
        title: String,
        description: Option<String>,
        importance: u8,
        due_date: Option<i64>,
        date_created: i64,
    ) -> (r: Task)
        requires
            importance <= IMPORTANCE_MAX,
            opt_ts_view(due_date) matches Some(d) ==> ts_in_range(d),
            ts_in_range(date_created as int),
        ensures
            r.wf(),
            r@ == (TaskView {
                title: title@,
                description: opt_str_view(description),
                importance: importance as int,
                due: opt_ts_view(due_date),
                created: date_created as int,
                subs: Seq::<LeafView>::empty(),
            }),
    {
        let r = Task { title, description, importance, due_date, date_created, sub_tasks: Vec::new() };
        proof {
            assert(r@.subs =~= Seq::<LeafView>::empty());
            assert(r@ =~= (TaskView {
                title: r.title@,
                description: opt_str_view(r.description),
                importance: r.importance as int,
                due: opt_ts_view(r.due_date),
                created: r.date_created as int,
                subs: Seq::<LeafView>::empty(),
            }));
        }
        r
    }

    /// Appends one sub-task, preserving the order of the others.
    pub fn add_sub_task(&mut self, sub_task: Task)
        requires
            sub_task.sub_tasks@.len() == 0,
        ensures
            final(self)@ == (TaskView { subs: old(self)@.subs.push(leaf_of(sub_task)), ..old(self)@ }),
            old(self).wf() && leaf_wf(leaf_of(sub_task)) ==> final(self).wf(),
    {
        let ghost pre = *self;
        self.sub_tasks.push(sub_task);
        proof {
            assert(self@.subs =~= pre@.subs.push(leaf_of(sub_task)));
            assert(self@ =~= (TaskView { subs: pre@.subs.push(leaf_of(sub_task)), ..pre@ }));
        }
    }
}

/// The values of a sequence of tasks, in order.
pub open spec fn views_of(s: Seq<Task>) -> Seq<TaskView> {
    s.map_values(|t: Task| t@)
}

/// The leaf fields of a task's value.
pub open spec fn leaf_part(t: TaskView) -> LeafView {
    LeafView {
        title: t.title,
        description: t.description,
        importance: t.importance,
        due: t.due,
        created: t.created,
    }
}

/// A sub-task's value seen as a whole task: the same fields over an
/// empty sub-task list.
pub open spec fn leaf_expand(l: LeafView) -> TaskView {
    TaskView {
        title: l.title,
        description: l.description,
        importance: l.importance,
        due: l.due,
        created: l.created,
        subs: Seq::empty(),
    }
}

/// A copy of a description.
pub fn clone_opt_string(o: &Option<String>) -> (r: Option<String>)
    ensures
        opt_str_view(r) == opt_str_view(*o),
{
    match o {
        Option::None => Option::None,
        Option::Some(s) => Option::Some(s.clone()),
    }
}

/// A copy of a task that keeps every stored field and drops nothing:
/// the copy has the same value as the original.
pub fn clone_task(t: &Task) -> (r: Task)
    requires
        t.wf(),
    ensures
        r@ == t@,
        r.wf(),
{
    let mut subs: Vec<Task> = Vec::new();
    let n = t.sub_tasks.len();
    let mut i: usize = 0;
    while i < n
        invariant
            0 <= i <= n,
            n == t.sub_tasks@.len(),
            t.wf(),
            subs@.len() == i,
            forall|j: int|
                0 <= j < i ==> leaf_of(#[trigger] subs@[j]) == leaf_of(t.sub_tasks@[j])
                    && subs@[j].sub_tasks@.len() == 0,
        decreases n - i,
    {
        let s = &t.sub_tasks[i];
        let copy = Task {
            title: s.title.clone(),
            description: clone_opt_string(&s.description),
            importance: s.importance,
            due_date: s.due_date,
            date_created: s.date_created,
            sub_tasks: Vec::new(),
        };
        subs.push(copy);
        i = i + 1;
    }
    let r = Task {
        title: t.title.clone(),
        description: clone_opt_string(&t.description),
        importance: t.importance,
        due_date: t.due_date,
        date_created: t.date_created,
        sub_tasks: subs,
    };
    proof {
        assert(r@.subs =~= t@.subs);
        assert(r@ =~= t@);
    }
    r
}

// ---------------------------------------------------------------------
// Display projections.
// ---------------------------------------------------------------------

/// The display-only urgency class of a due date, from the seconds left
/// until it: under a day is critical, under a week is warning.
#[derive(Clone, Copy, PartialEq, Eq, Structural, Debug)]
pub enum Urgency {
    Critical,
    Warning,
    Normal,
}

/// The urgency class for a signed number of seconds left.
pub open spec fn urgency_of(diff: int) -> Urgency {
    if diff < DAY_SECS {
        Urgency::Critical
    } else if diff < WEEK_SECS {
        Urgency::Warning
    } else {
        Urgency::Normal
    }
}

/// Header line data: the title, the importance rank it is tagged with,
/// and, when a due date is set, its remaining-time label and urgency.
pub struct HeaderView {
    pub title: String,
    pub importance: u8,
    pub due: Option<(String, Urgency)>,
}

/// Detail data: the header, the description when present, and the
/// header of each sub-task.
pub struct DetailView {
    pub header: HeaderView,
    pub description: Option<String>,
    pub sub_headers: Vec<HeaderView>,
}

/// The full info block: every stored field, with `None` standing in for
/// a missing description or due date, and the timestamps rendered as
/// `YYYY-MM-DD HH:MM:SS` text.
#[derive(Debug)]
pub struct InfoView {
    pub title: String,
    pub description: String,
    pub importance: u8,
    pub date_created: String,
    pub due_date: String,
    pub sub_count: usize,
}

/// What a correct header for leaf data `l` at time `now` holds.
pub open spec fn header_matches(h: HeaderView, l: LeafView, now: int) -> bool {
    &&& h.title@ == l.title
    &&& h.importance as int == l.importance
    &&& (l.due is None ==> h.due is None)
    &&& (l.due matches Some(d) ==> h.due matches Some(p) && p.0@ == time_left_label(d - now)
        && p.1 == urgency_of(d - now))
}

/// What a correct detail block for task value `t` at time `now` holds:
/// its header, its description, and one header per sub-task in order.
pub open spec fn detail_matches(d: DetailView, t: TaskView, now: int) -> bool {
    &&& header_matches(d.header, leaf_part(t), now)
    &&& opt_str_view(d.description) == t.description
    &&& d.sub_headers@.len() == t.subs.len()
    &&& (forall|j: int|
        0 <= j < t.subs.len() ==> header_matches(#[trigger] d.sub_headers@[j], t.subs[j], now))
}

/// What a correct info block for task value `t` holds: every stored
/// field, rendered exactly, with the text `None` for a missing
/// description or due date.
pub open spec fn info_matches(r: InfoView, t: TaskView) -> bool {
    &&& r.title@ == t.title
    &&& (t.description matches Some(d) ==> r.description@ == d)
    &&& (t.description is None ==> r.description@ == "None"@)
    &&& r.importance as int == t.importance
    &&& r.date_created@ == ts_text(t.created)
    &&& (t.due matches Some(d) ==> r.due_date@ == ts_text(d))
    &&& (t.due is None ==> r.due_date@ == "None"@)
    &&& r.sub_count as int == t.subs.len()
}

fn render_header_parts(
    title: &String,
    importance: u8,
    due: &Option<i64>,
    now: i64,
) -> (h: HeaderView)
    requires
        ts_in_range(now as int),
        opt_ts_view(*due) matches Some(d) ==> ts_in_range(d),
    ensures
        h.title@ == title@,
        h.importance == importance,
        (due is None ==> h.due is None),
        (opt_ts_view(*due) matches Some(d) ==> h.due matches Some(p) && p.0@ == time_left_label(
            d - now,
        ) && p.1 == urgency_of(d - now)),
{
    let due_part: Option<(String, Urgency)> = match due {
        Option::None => Option::None,
        Option::Some(d) => {
            let diff: i64 = *d - now;
            let label = time_left_label_of(diff);
            let urgency = if diff < DAY_SECS as i64 {
                Urgency::Critical
            } else if diff < WEEK_SECS as i64 {
                Urgency::Warning
            } else {
                Urgency::Normal
            };
            Option::Some((label, urgency))
        },
    };
    HeaderView { title: title.clone(), importance, due: due_part }
}

impl Task {
    /// The header line: title, rank tag and remaining-time label.
    pub fn render_header(&self, now: i64) -> (h: HeaderView)
        requires
            self.wf(),
            ts_in_range(now as int),
        ensures
            header_matches(h, leaf_of(*self), now as int),
    {
        render_header_parts(&self.title, self.importance, &self.due_date, now)
    }

    /// The detail block: the header, the description when present,
    /// and one header per sub-task in order.
    pub fn render_detail(&self, now: i64) -> (d: DetailView)
        requires
            self.wf(),
            ts_in_range(now as int),
        ensures
            detail_matches(d, self@, now as int),
    {
        proof {
            assert(leaf_part(self@) =~= leaf_of(*self));
        }
        let header = render_header_parts(&self.title, self.importance, &self.due_date, now);
        let description = clone_opt_string(&self.description);
        let mut sub_headers: Vec<HeaderView> = Vec::new();
        let n = self.sub_tasks.len();
        let mut i: usize = 0;
        while i < n
            invariant
                0 <= i <= n,
                n == self.sub_tasks@.len(),
                self.wf(),
                ts_in_range(now as int),
                sub_headers@.len() == i,
                forall|j: int|
                    0 <= j < i ==> header_matches(
                        #[trigger] sub_headers@[j],
                        self@.subs[j],
                        now as int,
                    ),
            decreases n - i,
        {
            let s = &self.sub_tasks[i];
            proof {
                assert(self@.subs[i as int] == leaf_of(self.sub_tasks@[i as int]));
                assert(leaf_wf(self@.subs[i as int]));
            }
            let h = render_header_parts(&s.title, s.importance, &s.due_date, now);
            sub_headers.push(h);
            i = i + 1;
        }
        DetailView { header, description, sub_headers }
    }

    /// The info block: every stored field rendered exactly, with the
    /// literal text `None` for a missing description or due date.
    pub fn render_info(&self) -> (r: InfoView)
        requires
            self.wf(),
        ensures
            info_matches(r, self@),
    {
        let description = match &self.description {
            Option::Some(d) => d.clone(),
            Option::None => String::from_str("None"),
        };
        let due_date = match &self.due_date {
            Option::Some(d) => format_ts(*d),
            Option::None => String::from_str("None"),
        };
        InfoView {
            title: self.title.clone(),
            description,
            importance: self.importance,
            date_created: format_ts(self.date_created),
            due_date,
            sub_count: self.sub_tasks.len(),
        }
    }
}

} // verus!
