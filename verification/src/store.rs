//! The task store: an ordered collection of top-level tasks plus the
//! "last focused task" navigation state, with bounds-checked lookups,
//! removal, sorting, filtering and random selection.
//!
//! Indices handed in by callers are 1-based; 0 and out-of-range indices
//! are input errors, never silent no-ops. The focus is a 1-based index
//! into the top-level list; the store keeps it valid by clearing it
//! when the task it names is removed, shifting it when an earlier task
//! is removed, and clearing it when the list is reordered.

use vstd::prelude::*;

use crate::task::{Task, TaskView, views_of, clone_task, leaf_of, leaf_wf};
use crate::sort::{SortKey, sort_of, sorted_tasks};
use crate::text::{dec_digits, u64_to_string};

verus! {

/// The text of the error for an index past the end.
pub open spec fn last_id_text(len: int) -> Seq<char> {
    "Last id is "@ + dec_digits(len as nat) + "!"@
}

/// The text of the error for a zero index.
pub open spec fn positive_text() -> Seq<char> {
    "Task ID must be a positive number!"@
}

/// Which of the two index errors a rejected index gets.
pub open spec fn index_err_text(len: int, index: int) -> Seq<char> {
    if index > len {
        last_id_text(len)
    } else {
        positive_text()
    }
}

/// Builds the past-the-end error message.
pub fn last_id_error(len: usize) -> (r: String)
    ensures
        r@ == last_id_text(len as int),
{
    String::from_str("Last id is ").concat(u64_to_string(len as u64).as_str()).concat("!")
}

/// Builds the error message for a rejected index.
pub fn index_error(len: usize, index: u64) -> (r: String)
    requires
        index == 0 || index > len,
    ensures
        r@ == index_err_text(len as int, index as int),
{
    if index > len as u64 {
        last_id_error(len)
    } else {
        String::from_str("Task ID must be a positive number!")
    }
}

/// Relies on rand's `thread_rng` and `gen_range` for a draw below `n`;
/// nothing is assumed beyond the result's range.
#[verifier::external_body]
fn rand_below(n: usize) -> (r: usize)
    requires
        n > 0,
    ensures
        r < n,
{
    rand::Rng::gen_range(&mut rand::thread_rng(), 0..n)
}

/// The ordered collection of top-level tasks plus the focus state.
pub struct TaskList {
    pub tasks: Vec<Task>,
    pub last_shown: Option<usize>,
}

impl TaskList {
    /// The sequence of task values the store holds.
    pub open spec fn views(&self) -> Seq<TaskView> {
        views_of(self.tasks@)
    }

    /// Every stored task is well-formed and the focus, when set, names
    /// an existing top-level task by its 1-based index.
    pub open spec fn wf(&self) -> bool {
        &&& (forall|i: int| 0 <= i < self.tasks@.len() ==> (#[trigger] self.tasks@[i]).wf())
        &&& (self.last_shown matches Some(f) ==> 1 <= f <= self.tasks@.len())
    }

    /// An empty store with no focus.
    pub fn new() -> (r: TaskList)
        ensures
            r.wf(),
            r.views() =~= Seq::<TaskView>::empty(),
            r.last_shown is None,
    {
        let r = TaskList { tasks: Vec::new(), last_shown: Option::None };
        proof {
            assert(r.views() =~= Seq::<TaskView>::empty());
        }
        r
    }

    /// Appends a task to the top level.
    pub fn add_task(&mut self, task: Task)
        requires
            old(self).wf(),
            task.wf(),
        ensures
            final(self).wf(),
            final(self).views() == old(self).views().push(task@),
            final(self).last_shown == old(self).last_shown,
    {
        self.tasks.push(task);
        proof {
            assert(self.views() =~= old(self).views().push(task@));
        }
    }

    /// The task at a 1-based index, or the index error naming the valid
    /// upper bound.
    pub fn get(&self, index: u64) -> (r: Result<&Task, String>)
        requires
            self.wf(),
        ensures
            r is Ok <==> 1 <= index <= self.views().len(),
            r matches Ok(t) ==> *t == self.tasks@[index - 1] && t@ == self.views()[index - 1],
            r matches Err(m) ==> m@ == index_err_text(self.views().len() as int, index as int),
    {
        let len = self.tasks.len();
        if 1 <= index && index <= len as u64 {
            Ok(&self.tasks[(index - 1) as usize])
        } else {
            Err(index_error(len, index))
        }
    }

    /// The sub-task at a 1-based index under the 1-based parent index,
    /// or the first index error met, each naming its own upper bound.
    pub fn get_sub(&self, parent_index: u64, sub_index: u64) -> (r: Result<&Task, String>)
        requires
            self.wf(),
        ensures
            r is Ok <==> 1 <= parent_index <= self.views().len() && 1 <= sub_index <= self.views(
            )[parent_index - 1].subs.len(),
            r matches Ok(t) ==> 1 <= parent_index <= self.views().len() && t@.subs.len() == 0
                && crate::task::leaf_of(*t) == self.views()[parent_index - 1].subs[sub_index - 1],
            !(1 <= parent_index <= self.views().len()) ==> (r matches Err(m) && m@
                == index_err_text(self.views().len() as int, parent_index as int)),
            (1 <= parent_index <= self.views().len() && !(1 <= sub_index <= self.views(
            )[parent_index - 1].subs.len())) ==> (r matches Err(m) && m@ == index_err_text(
                self.views()[parent_index - 1].subs.len() as int,
                sub_index as int,
            )),
    {
        let len = self.tasks.len();
        if !(1 <= parent_index && parent_index <= len as u64) {
            return Err(index_error(len, parent_index));
        }
        let parent = &self.tasks[(parent_index - 1) as usize];
        let sub_len = parent.sub_tasks.len();
        if 1 <= sub_index && sub_index <= sub_len as u64 {
            let t = &parent.sub_tasks[(sub_index - 1) as usize];
            proof {
                assert(parent@.subs[sub_index - 1] == crate::task::leaf_of(
                    parent.sub_tasks@[sub_index - 1],
                ));
            }
            Ok(t)
        } else {
            Err(index_error(sub_len, sub_index))
        }
    }

    /// Appends a sub-task to the task at a 1-based index.
    pub fn add_sub_task(&mut self, parent_index: u64, task: Task) -> (r: Result<(), String>)
        requires
            old(self).wf(),
            task.wf(),
            task.sub_tasks@.len() == 0,
        ensures
            final(self).wf(),
            r is Ok <==> 1 <= parent_index <= old(self).views().len(),
            r is Ok ==> final(self).views() == old(self).views().update(
                parent_index - 1,
                TaskView {
                    subs: old(self).views()[parent_index - 1].subs.push(crate::task::leaf_of(task)),
                    ..old(self).views()[parent_index - 1]
                },
            ),
            r matches Err(m) ==> *final(self) == *old(self) && m@ == index_err_text(
                old(self).views().len() as int,
                parent_index as int,
            ),
            final(self).last_shown == old(self).last_shown,
    {
        let len = self.tasks.len();
        if !(1 <= parent_index && parent_index <= len as u64) {
            return Err(index_error(len, parent_index));
        }
        let ghost leaf = crate::task::leaf_of(task);
        let i = (parent_index - 1) as usize;
        let mut parent = self.tasks.remove(i);
        proof {
            assert(leaf_wf_of(task));
            assert(parent.wf());
        }
        parent.add_sub_task(task);
        self.tasks.insert(i, parent);
        proof {
            assert(self.views() =~= old(self).views().update(
                parent_index - 1,
                TaskView { subs: old(self).views()[parent_index - 1].subs.push(leaf), ..old(
                    self,
                ).views()[parent_index - 1] },
            ));
            assert forall|j: int| 0 <= j < self.tasks@.len() implies (#[trigger] self.tasks@[j]).wf()
                by {
                if j != i {
                    assert(self.tasks@[j] == old(self).tasks@[j]);
                }
            }
        }
        Ok(())
    }

    /// Removes and returns the task at a 1-based index, keeping every
    /// other task in its original relative order. A focus on the
    /// removed task is cleared; one past it slides down by one.
    pub fn remove(&mut self, index: u64) -> (r: Result<Task, String>)
        requires
            old(self).wf(),
        ensures
            final(self).wf(),
            r is Ok <==> 1 <= index <= old(self).views().len(),
            r matches Ok(t) ==> t@ == old(self).views()[index - 1] && final(self).views() == old(
                self,
            ).views().remove(index - 1),
            r is Ok ==> final(self).last_shown == (match old(self).last_shown {
                Option::Some(f) => if f == index {
                    Option::<usize>::None
                } else if f > index {
                    Option::Some((f - 1) as usize)
                } else {
                    Option::Some(f)
                },
                Option::None => Option::<usize>::None,
            }),
            r matches Err(m) ==> *final(self) == *old(self) && m@ == index_err_text(
                old(self).views().len() as int,
                index as int,
            ),
    {
        let len = self.tasks.len();
        if !(1 <= index && index <= len as u64) {
            return Err(index_error(len, index));
        }
        let i = (index - 1) as usize;
        let removed = self.tasks.remove(i);
        self.last_shown = match self.last_shown {
            Option::Some(f) => {
                if f as u64 == index {
                    Option::None
                } else if f as u64 > index {
                    Option::Some(f - 1)
                } else {
                    Option::Some(f)
                }
            },
            Option::None => Option::None,
        };
        proof {
            assert(self.views() =~= old(self).views().remove(index - 1));
        }
        Ok(removed)
    }

    /// Removes and returns the sub-task at a 1-based index under the
    /// 1-based parent index, keeping every other sub-task in order.
    /// The focus stays where it was: top-level positions do not move.
    pub fn remove_sub(&mut self, parent_index: u64, sub_index: u64) -> (r: Result<Task, String>)
        requires
            old(self).wf(),
        ensures
            final(self).wf(),
            r is Ok <==> 1 <= parent_index <= old(self).views().len() && 1 <= sub_index <= old(
                self,
            ).views()[parent_index - 1].subs.len(),
            r matches Ok(t) ==> leaf_of(t) == old(self).views()[parent_index - 1].subs[sub_index
                - 1] && final(self).views() == old(self).views().update(
                parent_index - 1,
                TaskView {
                    subs: old(self).views()[parent_index - 1].subs.remove(sub_index - 1),
                    ..old(self).views()[parent_index - 1]
                },
            ),
            r matches Err(m) ==> *final(self) == *old(self),
            !(1 <= parent_index <= old(self).views().len()) ==> (r matches Err(m) && m@
                == index_err_text(old(self).views().len() as int, parent_index as int)),
            (1 <= parent_index <= old(self).views().len() && !(1 <= sub_index <= old(
                self,
            ).views()[parent_index - 1].subs.len())) ==> (r matches Err(m) && m@
                == index_err_text(
                old(self).views()[parent_index - 1].subs.len() as int,
                sub_index as int,
            )),
            final(self).last_shown == old(self).last_shown,
    {
        let len = self.tasks.len();
        if !(1 <= parent_index && parent_index <= len as u64) {
            return Err(index_error(len, parent_index));
        }
        let i = (parent_index - 1) as usize;
        let sub_len = self.tasks[i].sub_tasks.len();
        if !(1 <= sub_index && sub_index <= sub_len as u64) {
            return Err(index_error(sub_len, sub_index));
        }
        let mut parent = self.tasks.remove(i);
        let removed = parent.sub_tasks.remove((sub_index - 1) as usize);
        self.tasks.insert(i, parent);
        proof {
            let k = sub_index - 1;
            let old_subs = old(self).tasks@[i as int].sub_tasks@;
            let ov = old(self).views()[parent_index - 1];
            assert(ov == old(self).tasks@[i as int]@);
            assert(removed == old_subs[k]);
            assert(leaf_of(removed) == ov.subs[k]);
            assert(self.tasks@[i as int] == parent);
            assert(parent.sub_tasks@ == old_subs.remove(k));
            assert(parent@.subs =~= ov.subs.remove(k)) by {
                assert forall|m: int|
                    0 <= m < parent.sub_tasks@.len() implies leaf_of(
                    #[trigger] parent.sub_tasks@[m]) == ov.subs.remove(k)[m] by {
                    if m < k {
                        assert(parent.sub_tasks@[m] == old_subs[m]);
                        assert(ov.subs.remove(k)[m] == ov.subs[m]);
                        assert(ov.subs[m] == leaf_of(old_subs[m]));
                    } else {
                        assert(parent.sub_tasks@[m] == old_subs[m + 1]);
                        assert(ov.subs.remove(k)[m] == ov.subs[m + 1]);
                        assert(ov.subs[m + 1] == leaf_of(old_subs[m + 1]));
                    }
                }
            }
            assert(parent@ =~= (TaskView { subs: ov.subs.remove(k), ..ov }));
            assert(self.views() =~= old(self).views().update(
                parent_index - 1,
                TaskView { subs: ov.subs.remove(k), ..ov },
            ));
            assert(old(self).tasks@[i as int].wf());
            assert(parent.wf()) by {
                assert forall|m: int|
                    0 <= m < parent.sub_tasks@.len() implies leaf_wf(#[trigger] parent@.subs[m])
                    && (#[trigger] parent.sub_tasks@[m]).sub_tasks@.len() == 0 by {
                    if m < k {
                        assert(parent.sub_tasks@[m] == old_subs[m]);
                        assert(parent@.subs[m] == ov.subs[m]);
                    } else {
                        assert(parent.sub_tasks@[m] == old_subs[m + 1]);
                        assert(parent@.subs[m] == ov.subs[m + 1]);
                    }
                }
            }
            assert forall|j: int|
                0 <= j < self.tasks@.len() implies (#[trigger] self.tasks@[j]).wf() by {
                if j != i {
                    assert(self.tasks@[j] == old(self).tasks@[j]);
                }
            }
        }
        Ok(removed)
    }

    /// Points the focus at the task with the given 1-based index.
    pub fn set_focus(&mut self, index: usize)
        requires
            old(self).wf(),
            1 <= index <= old(self).views().len(),
        ensures
            final(self).wf(),
            final(self).tasks == old(self).tasks,
            final(self).last_shown == Option::Some(index),
    {
        self.last_shown = Option::Some(index);
    }

    /// Clears the focus.
    pub fn clear_focus(&mut self)
        requires
            old(self).wf(),
        ensures
            final(self).wf(),
            final(self).tasks == old(self).tasks,
            final(self).last_shown is None,
    {
        self.last_shown = Option::None;
    }

    /// Reorders the top-level tasks into ascending creation order,
    /// stably; the focus is cleared because positions change.
    pub fn sort_by_date_created(&mut self)
        requires
            old(self).wf(),
        ensures
            final(self).wf(),
            final(self).views() == sort_of(old(self).views(), SortKey::Created),
            final(self).last_shown is None,
    {
        self.tasks = sorted_tasks(&self.tasks, SortKey::Created);
        self.last_shown = Option::None;
    }

    /// Reorders the top-level tasks into ascending due-date order,
    /// stably, tasks without a due date last; the focus is cleared.
    pub fn sort_by_due(&mut self)
        requires
            old(self).wf(),
        ensures
            final(self).wf(),
            final(self).views() == sort_of(old(self).views(), SortKey::Due),
            final(self).last_shown is None,
    {
        self.tasks = sorted_tasks(&self.tasks, SortKey::Due);
        self.last_shown = Option::None;
    }

    /// Reorders the top-level tasks into descending importance order,
    /// stably; the focus is cleared.
    pub fn sort_by_importance(&mut self)
        requires
            old(self).wf(),
        ensures
            final(self).wf(),
            final(self).views() == sort_of(old(self).views(), SortKey::Importance),
            final(self).last_shown is None,
    {
        self.tasks = sorted_tasks(&self.tasks, SortKey::Importance);
        self.last_shown = Option::None;
    }

    /// A copy of the tasks in descending importance order.
    pub fn sorted_by_priority(&self) -> (r: Vec<Task>)
        requires
            self.wf(),
        ensures
            views_of(r@) == sort_of(self.views(), SortKey::Importance),
    {
        sorted_tasks(&self.tasks, SortKey::Importance)
    }

    /// A copy of the tasks in ascending due-date order, tasks without
    /// a due date last.
    pub fn sorted_by_due(&self) -> (r: Vec<Task>)
        requires
            self.wf(),
        ensures
            views_of(r@) == sort_of(self.views(), SortKey::Due),
    {
        sorted_tasks(&self.tasks, SortKey::Due)
    }

    /// The tasks whose importance is exactly `priority`, in their
    /// current order.
    pub fn get_by_priority(&self, priority: u8) -> (r: Vec<Task>)
        requires
            self.wf(),
        ensures
            views_of(r@) == self.views().filter(importance_pred(priority as int)),
            forall|i: int| 0 <= i < r@.len() ==> (#[trigger] r@[i]).wf(),
    {
        let ghost p = importance_pred(priority as int);
        let mut out: Vec<Task> = Vec::new();
        let n = self.tasks.len();
        let mut i: usize = 0;
        proof {
            broadcast use vstd::seq_lib::group_filter_ensures;

            assert(views_of(self.tasks@.subrange(0, 0)) =~= Seq::<TaskView>::empty());
            assert(Seq::<TaskView>::empty().filter(p) =~= Seq::<TaskView>::empty()) by {
                reveal_with_fuel(Seq::filter, 1);
            }
            assert(views_of(out@) =~= views_of(self.tasks@.subrange(0, 0)).filter(p));
        }
        while i < n
            invariant
                0 <= i <= n,
                n == self.tasks@.len(),
                self.wf(),
                p == importance_pred(priority as int),
                views_of(out@) == views_of(self.tasks@.subrange(0, i as int)).filter(p),
                forall|j: int| 0 <= j < out@.len() ==> (#[trigger] out@[j]).wf(),
            decreases n - i,
        {
            proof {
                broadcast use vstd::seq_lib::group_filter_ensures;

                let a = views_of(self.tasks@.subrange(0, i as int + 1));
                let b = views_of(self.tasks@.subrange(0, i as int));
                assert(a =~= b + seq![self.tasks@[i as int]@]);
                assert(a.filter(p) == b.filter(p) + seq![self.tasks@[i as int]@].filter(p));
                crate::sort::lemma_filter_singleton_view(self.tasks@[i as int]@, p);
            }
            let t = &self.tasks[i];
            if t.importance == priority {
                let copy = clone_task(t);
                out.push(copy);
                proof {
                    assert(views_of(out@) =~= views_of(self.tasks@.subrange(0, i as int)).filter(
                        p,
                    ) + seq![self.tasks@[i as int]@]);
                }
            } else {
                proof {
                    assert(views_of(out@) =~= views_of(
                        self.tasks@.subrange(0, i as int + 1),
                    ).filter(p));
                }
            }
            i = i + 1;
        }
        proof {
            assert(self.tasks@.subrange(0, n as int) =~= self.tasks@);
        }
        out
    }

    /// One header line per top-level task, in order.
    pub fn render_headers(&self, now: i64) -> (r: Vec<crate::task::HeaderView>)
        requires
            self.wf(),
            crate::date::ts_in_range(now as int),
        ensures
            r@.len() == self.views().len(),
            forall|i: int|
                0 <= i < self.views().len() ==> crate::task::header_matches(
                    #[trigger] r@[i],
                    crate::task::leaf_part(self.views()[i]),
                    now as int,
                ),
    {
        let mut out: Vec<crate::task::HeaderView> = Vec::new();
        let n = self.tasks.len();
        let mut i: usize = 0;
        while i < n
            invariant
                0 <= i <= n,
                n == self.tasks@.len(),
                self.wf(),
                crate::date::ts_in_range(now as int),
                out@.len() == i,
                forall|j: int|
                    0 <= j < i ==> crate::task::header_matches(
                        #[trigger] out@[j],
                        crate::task::leaf_part(self.views()[j]),
                        now as int,
                    ),
            decreases n - i,
        {
            let h = self.tasks[i].render_header(now);
            proof {
                assert(crate::task::leaf_of(self.tasks@[i as int]) =~= crate::task::leaf_part(
                    self.views()[i as int],
                ));
            }
            out.push(h);
            i = i + 1;
        }
        out
    }

    /// A copy of a uniformly selected task from a non-empty list.
    pub fn get_random(task_list: &Vec<Task>) -> (r: Task)
        requires
            task_list@.len() > 0,
            forall|i: int| 0 <= i < task_list@.len() ==> (#[trigger] task_list@[i]).wf(),
        ensures
            exists|i: int| 0 <= i < task_list@.len() && r@ == #[trigger] task_list@[i]@,
            r.wf(),
    {
        let index = rand_below(task_list.len());
        clone_task(&task_list[index])
    }

    /// A copy of a uniformly selected task, or nothing from an empty
    /// store.
    pub fn random_task(&self) -> (r: Option<Task>)
        requires
            self.wf(),
        ensures
            r is Some <==> self.views().len() > 0,
            r matches Some(t) ==> t.wf() && exists|i: int|
                0 <= i < self.views().len() && t@ == #[trigger] self.views()[i],
    {
        if self.tasks.is_empty() {
            return Option::None;
        }
        let t = Self::get_random(&self.tasks);
        proof {
            let i = choose|i: int| 0 <= i < self.tasks@.len() && t@ == #[trigger] self.tasks@[i]@;
            assert(t@ == self.views()[i]);
        }
        Option::Some(t)
    }
}

/// The predicate that keeps the tasks of one importance rank.
pub open spec fn importance_pred(p: int) -> spec_fn(TaskView) -> bool {
    |t: TaskView| t.importance == p
}

/// Shorthand for the well-formedness of a task's own fields as a leaf.
pub open spec fn leaf_wf_of(t: Task) -> bool {
    crate::task::leaf_wf(crate::task::leaf_of(t))
}

} // verus!
