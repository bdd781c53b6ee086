//! Stable sorting of task sequences by creation date, due date or
//! importance, with the ordering and stability laws proved about it.
//!
//! The specification-level sort is an insertion sort that places each
//! element after every earlier element whose key is not larger, which
//! makes it stable: for every key value, the subsequence of elements
//! carrying that value is kept in its original order.

use vstd::prelude::*;

use vstd::multiset::Multiset;
use crate::task::{Task, TaskView, views_of, clone_task, task_view_wf};
use crate::date::TS_MAX;

verus! {

/// The three sort orders the store offers.
#[derive(Clone, Copy, PartialEq, Eq, Structural, Debug)]
pub enum SortKey {
    /// Ascending by creation stamp.
    Created,
    /// Ascending by due date, tasks without one last.
    Due,
    /// Descending by importance rank.
    Importance,
}

/// The integer key a task is ordered by; every sort is ascending in
/// this key. A missing due date maps past every storable timestamp,
/// and importance is negated to make the rank sort descending.
pub open spec fn sort_key(k: SortKey, t: TaskView) -> int {
    match k {
        SortKey::Created => t.created,
        SortKey::Due => match t.due {
            Option::Some(d) => d,
            Option::None => TS_MAX + 1,
        },
        SortKey::Importance => -t.importance,
    }
}

/// Non-decreasing in the key.
pub open spec fn sorted_by(s: Seq<TaskView>, k: SortKey) -> bool {
    forall|i: int, j: int|
        0 <= i < j < s.len() ==> sort_key(k, #[trigger] s[i]) <= sort_key(k, #[trigger] s[j])
}

/// Places `x` after every element of `s` whose key is not larger than
/// its own, keeping the rest in order.
pub open spec fn insert_sorted(s: Seq<TaskView>, x: TaskView, k: SortKey) -> Seq<TaskView>
    decreases s.len(),
{
    if s.len() == 0 {
        seq![x]
    } else if sort_key(k, s.last()) <= sort_key(k, x) {
        s.push(x)
    } else {
        insert_sorted(s.drop_last(), x, k).push(s.last())
    }
}

/// The stable sort of `s` by key `k`: elements are inserted left to
/// right, each after its equals.
pub open spec fn sort_of(s: Seq<TaskView>, k: SortKey) -> Seq<TaskView>
    decreases s.len(),
{
    if s.len() == 0 {
        Seq::empty()
    } else {
        insert_sorted(sort_of(s.drop_last(), k), s.last(), k)
    }
}

/// Inserting keeps any upper bound on the keys.
proof fn lemma_insert_sorted_ub(s: Seq<TaskView>, x: TaskView, k: SortKey, b: int)
    requires
        forall|i: int| 0 <= i < s.len() ==> sort_key(k, #[trigger] s[i]) <= b,
        sort_key(k, x) <= b,
    ensures
        forall|i: int|
            0 <= i < insert_sorted(s, x, k).len() ==> sort_key(
                k,
                #[trigger] insert_sorted(s, x, k)[i],
            ) <= b,
    decreases s.len(),
{
    let t = insert_sorted(s, x, k);
    if s.len() == 0 {
        assert forall|i: int| 0 <= i < t.len() implies sort_key(k, #[trigger] t[i]) <= b by {
            assert(t[i] == x);
        }
    } else if sort_key(k, s.last()) <= sort_key(k, x) {
        assert forall|i: int| 0 <= i < t.len() implies sort_key(k, #[trigger] t[i]) <= b by {
            if i < s.len() {
                assert(t[i] == s[i]);
            } else {
                assert(t[i] == x);
            }
        }
    } else {
        let s1 = s.drop_last();
        assert(forall|i: int| 0 <= i < s1.len() ==> sort_key(k, #[trigger] s1[i]) <= b);
        lemma_insert_sorted_ub(s1, x, k, b);
        let t1 = insert_sorted(s1, x, k);
        assert forall|i: int| 0 <= i < t.len() implies sort_key(k, #[trigger] t[i]) <= b by {
            if i < t1.len() {
                assert(t[i] == t1[i]);
            } else {
                assert(t[i] == s.last());
            }
        }
    }
}

/// Inserting into a sorted sequence keeps it sorted.
pub proof fn lemma_insert_sorted_sorted(s: Seq<TaskView>, x: TaskView, k: SortKey)
    requires
        sorted_by(s, k),
    ensures
        sorted_by(insert_sorted(s, x, k), k),
    decreases s.len(),
{
    if s.len() == 0 {
    } else if sort_key(k, s.last()) <= sort_key(k, x) {
        let t = s.push(x);
        assert forall|i: int, j: int| 0 <= i < j < t.len() implies sort_key(k, #[trigger] t[i])
            <= sort_key(k, #[trigger] t[j]) by {
            if j < s.len() {
            } else {
                if i < s.len() - 1 {
                    assert(sort_key(k, s[i]) <= sort_key(k, s[s.len() - 1]));
                }
            }
        }
    } else {
        let s1 = s.drop_last();
        let last = s.last();
        assert(sorted_by(s1, k));
        lemma_insert_sorted_sorted(s1, x, k);
        assert(forall|i: int| 0 <= i < s1.len() ==> sort_key(k, #[trigger] s1[i]) <= sort_key(
            k,
            last,
        ));
        lemma_insert_sorted_ub(s1, x, k, sort_key(k, last));
        let ins = insert_sorted(s1, x, k);
        let t = ins.push(last);
        assert forall|i: int, j: int| 0 <= i < j < t.len() implies sort_key(k, #[trigger] t[i])
            <= sort_key(k, #[trigger] t[j]) by {
            if j < ins.len() {
            } else {
                assert(sort_key(k, ins[i]) <= sort_key(k, last));
            }
        }
    }
}

/// The sort is sorted.
pub proof fn lemma_sort_of_sorted(s: Seq<TaskView>, k: SortKey)
    ensures
        sorted_by(sort_of(s, k), k),
    decreases s.len(),
{
    if s.len() > 0 {
        lemma_sort_of_sorted(s.drop_last(), k);
        lemma_insert_sorted_sorted(sort_of(s.drop_last(), k), s.last(), k);
    }
}

/// Inserting adds exactly one copy of `x` to the contents.
pub proof fn lemma_insert_sorted_multiset(s: Seq<TaskView>, x: TaskView, k: SortKey)
    ensures
        insert_sorted(s, x, k).to_multiset() == s.to_multiset().insert(x),
    decreases s.len(),
{
    broadcast use vstd::seq_lib::group_to_multiset_ensures;

    if s.len() == 0 {
        assert(seq![x] =~= Seq::<TaskView>::empty().push(x));
        assert(insert_sorted(s, x, k).to_multiset() =~= s.to_multiset().insert(x));
    } else if sort_key(k, s.last()) <= sort_key(k, x) {
        assert(insert_sorted(s, x, k).to_multiset() =~= s.to_multiset().insert(x));
    } else {
        let s1 = s.drop_last();
        let last = s.last();
        lemma_insert_sorted_multiset(s1, x, k);
        assert(s =~= s1.push(last));
        assert(insert_sorted(s, x, k).to_multiset() == insert_sorted(s1, x, k).to_multiset()
            .insert(last));
        assert(s1.to_multiset().insert(x).insert(last) =~= s1.to_multiset().insert(last).insert(
            x,
        ));
        assert(insert_sorted(s, x, k).to_multiset() =~= s.to_multiset().insert(x));
    }
}

/// The sort keeps exactly the original contents.
pub proof fn lemma_sort_of_multiset(s: Seq<TaskView>, k: SortKey)
    ensures
        sort_of(s, k).to_multiset() == s.to_multiset(),
    decreases s.len(),
{
    broadcast use vstd::seq_lib::group_to_multiset_ensures;

    if s.len() > 0 {
        let s1 = s.drop_last();
        lemma_sort_of_multiset(s1, k);
        lemma_insert_sorted_multiset(sort_of(s1, k), s.last(), k);
        assert(s =~= s1.push(s.last()));
        assert(sort_of(s, k).to_multiset() =~= s.to_multiset());
    }
}

/// Sorting a sequence that is already sorted gives it back; in
/// particular the sort is idempotent.
pub proof fn lemma_sort_of_sorted_id(s: Seq<TaskView>, k: SortKey)
    requires
        sorted_by(s, k),
    ensures
        sort_of(s, k) == s,
    decreases s.len(),
{
    if s.len() > 0 {
        let s1 = s.drop_last();
        assert(sorted_by(s1, k));
        lemma_sort_of_sorted_id(s1, k);
        if s1.len() > 0 {
            assert(sort_key(k, s1.last()) <= sort_key(k, s.last()));
        }
        assert(insert_sorted(s1, s.last(), k) =~= s);
    }
}

/// Sorting twice by one key is the same as sorting once.
pub proof fn lemma_sort_idempotent(s: Seq<TaskView>, k: SortKey)
    ensures
        sort_of(sort_of(s, k), k) == sort_of(s, k),
{
    lemma_sort_of_sorted(s, k);
    lemma_sort_of_sorted_id(sort_of(s, k), k);
}

/// Membership in the key class `v`: the predicate that the stability
/// law filters by.
pub open spec fn key_pred(k: SortKey, v: int) -> spec_fn(TaskView) -> bool {
    |t: TaskView| sort_key(k, t) == v
}

/// A one-element sequence filters to itself or to nothing.
pub proof fn lemma_filter_singleton_view(c: TaskView, p: spec_fn(TaskView) -> bool)
    ensures
        seq![c].filter(p) == if p(c) {
            seq![c]
        } else {
            Seq::<TaskView>::empty()
        },
{
    reveal_with_fuel(Seq::filter, 2);
    assert(seq![c].drop_last() =~= Seq::<TaskView>::empty());
    if p(c) {
        assert(seq![c].filter(p) =~= seq![c]);
    }
}

/// Inserting `x` appends it to its own key class and leaves every
/// class as in `s + [x]`.
proof fn lemma_insert_sorted_filter(s: Seq<TaskView>, x: TaskView, k: SortKey, v: int)
    ensures
        insert_sorted(s, x, k).filter(key_pred(k, v)) == (s + seq![x]).filter(key_pred(k, v)),
    decreases s.len(),
{
    broadcast use vstd::seq_lib::group_filter_ensures;

    let p = key_pred(k, v);
    if s.len() == 0 {
        assert(s + seq![x] =~= seq![x]);
    } else if sort_key(k, s.last()) <= sort_key(k, x) {
        assert(s.push(x) =~= s + seq![x]);
    } else {
        let s1 = s.drop_last();
        let last = s.last();
        lemma_insert_sorted_filter(s1, x, k, v);
        lemma_filter_singleton_view(x, p);
        lemma_filter_singleton_view(last, p);
        let t = insert_sorted(s1, x, k).push(last);
        assert(t =~= insert_sorted(s1, x, k) + seq![last]);
        assert(t.filter(p) == insert_sorted(s1, x, k).filter(p) + seq![last].filter(p));
        assert(s1 + seq![x] == (s1 + seq![x]));
        assert((s1 + seq![x]).filter(p) == s1.filter(p) + seq![x].filter(p));
        assert(s + seq![x] =~= (s1 + seq![last]) + seq![x]);
        assert((s + seq![x]).filter(p) == (s1 + seq![last]).filter(p) + seq![x].filter(p));
        assert((s1 + seq![last]).filter(p) == s1.filter(p) + seq![last].filter(p));
        // the classes of `x` and of `last` differ, so at most one of the
        // two singleton filters is non-empty and they commute
        if p(x) && p(last) {
            assert(sort_key(k, x) == v && sort_key(k, last) == v);
            assert(false);
        }
        assert(seq![x].filter(p) + seq![last].filter(p) =~= seq![last].filter(p) + seq![
            x,
        ].filter(p));
        assert(t.filter(p) =~= (s + seq![x]).filter(p));
    }
}

/// Stability: for every key value, the subsequence of elements carrying
/// that value is the same, in the same order, before and after sorting.
pub proof fn lemma_sort_of_stable(s: Seq<TaskView>, k: SortKey, v: int)
    ensures
        sort_of(s, k).filter(key_pred(k, v)) == s.filter(key_pred(k, v)),
    decreases s.len(),
{
    broadcast use vstd::seq_lib::group_filter_ensures;

    let p = key_pred(k, v);
    if s.len() > 0 {
        let s1 = s.drop_last();
        let last = s.last();
        lemma_sort_of_stable(s1, k, v);
        lemma_insert_sorted_filter(sort_of(s1, k), last, k, v);
        lemma_filter_singleton_view(last, p);
        assert(sort_of(s1, k) + seq![last] == (sort_of(s1, k) + seq![last]));
        assert((sort_of(s1, k) + seq![last]).filter(p) == sort_of(s1, k).filter(p) + seq![
            last,
        ].filter(p));
        assert(s =~= s1 + seq![last]);
        assert(s.filter(p) == s1.filter(p) + seq![last].filter(p));
    }
}

/// No two elements share a key.
pub open spec fn distinct_keys(s: Seq<TaskView>, k: SortKey) -> bool {
    forall|i: int, j: int|
        0 <= i < j < s.len() ==> sort_key(k, #[trigger] s[i]) != sort_key(k, #[trigger] s[j])
}

/// Two sorted sequences with the same contents are equal outright when
/// the keys are pairwise distinct.
pub proof fn lemma_sorted_distinct_unique(s: Seq<TaskView>, t: Seq<TaskView>, k: SortKey)
    requires
        sorted_by(s, k),
        sorted_by(t, k),
        distinct_keys(s, k),
        s.to_multiset() == t.to_multiset(),
    ensures
        s == t,
    decreases s.len(),
{
    broadcast use vstd::seq_lib::group_to_multiset_ensures;
    broadcast use vstd::multiset::group_multiset_axioms;

    assert(s.len() == s.to_multiset().len());
    assert(t.len() == t.to_multiset().len());
    assert(s.len() == t.len());
    if s.len() == 0 {
        assert(s =~= t);
    } else {
        let a = s.last();
        let b = t.last();
        assert(t.contains(b));
        assert(s.to_multiset().count(b) > 0);
        assert(s.contains(b));
        let ib = choose|i: int| 0 <= i < s.len() && s[i] == b;
        assert(sort_key(k, b) <= sort_key(k, a));
        assert(s.contains(a));
        assert(t.to_multiset().count(a) > 0);
        assert(t.contains(a));
        let ja = choose|j: int| 0 <= j < t.len() && t[j] == a;
        assert(sort_key(k, a) <= sort_key(k, b));
        if ib < s.len() - 1 {
            assert(sort_key(k, s[ib]) != sort_key(k, s[s.len() - 1]));
            assert(false);
        }
        assert(a == b);
        let s1 = s.drop_last();
        let t1 = t.drop_last();
        assert(s =~= s1.push(a));
        assert(t =~= t1.push(a));
        assert(s.to_multiset() == s1.to_multiset().insert(a));
        assert(t.to_multiset() == t1.to_multiset().insert(a));
        assert forall|x: TaskView| s1.to_multiset().count(x) == t1.to_multiset().count(
            x,
        ) by {
            assert(s1.to_multiset().insert(a).count(x) == t1.to_multiset().insert(a).count(x));
            if x == a {
                assert(s1.to_multiset().insert(a).count(a) == s1.to_multiset().count(a) + 1);
                assert(t1.to_multiset().insert(a).count(a) == t1.to_multiset().count(a) + 1);
            } else {
                assert(s1.to_multiset().insert(a).count(x) == s1.to_multiset().count(x));
                assert(t1.to_multiset().insert(a).count(x) == t1.to_multiset().count(x));
            }
        }
        assert(s1.to_multiset() =~= t1.to_multiset());
        assert(sorted_by(s1, k));
        assert(sorted_by(t1, k));
        assert(distinct_keys(s1, k));
        lemma_sorted_distinct_unique(s1, t1, k);
        assert(s =~= t);
    }
}

/// Where `x` lands: inserting at the position `p` whose suffix holds
/// exactly the elements with keys above `x`'s.
proof fn lemma_insert_sorted_at(s: Seq<TaskView>, x: TaskView, k: SortKey, p: int)
    requires
        0 <= p <= s.len(),
        forall|j: int| p <= j < s.len() ==> sort_key(k, #[trigger] s[j]) > sort_key(k, x),
        p > 0 ==> sort_key(k, s[p - 1]) <= sort_key(k, x),
    ensures
        insert_sorted(s, x, k) == s.subrange(0, p) + seq![x] + s.subrange(p, s.len() as int),
    decreases s.len(),
{
    if s.len() == 0 {
        assert(insert_sorted(s, x, k) =~= s.subrange(0, p) + seq![x] + s.subrange(
            p,
            s.len() as int,
        ));
    } else if sort_key(k, s.last()) <= sort_key(k, x) {
        assert(p == s.len());
        assert(s.push(x) =~= s.subrange(0, p) + seq![x] + s.subrange(p, s.len() as int));
    } else {
        assert(p < s.len());
        let s1 = s.drop_last();
        assert(forall|j: int| p <= j < s1.len() ==> sort_key(k, #[trigger] s1[j]) > sort_key(
            k,
            x,
        ));
        lemma_insert_sorted_at(s1, x, k, p);
        assert(insert_sorted(s, x, k) =~= s.subrange(0, p) + seq![x] + s.subrange(
            p,
            s.len() as int,
        ));
    }
}

/// The integer key a task is ordered by, computed on the machine.
fn key_of(k: SortKey, t: &Task) -> (r: i64)
    ensures
        r as int == sort_key(k, t@),
{
    match k {
        SortKey::Created => t.date_created,
        SortKey::Due => match t.due_date {
            Option::Some(d) => d,
            Option::None => TS_MAX + 1,
        },
        SortKey::Importance => -(t.importance as i64),
    }
}

/// The stable sort, on vectors of tasks: a sorted copy whose sequence
/// of values is exactly `sort_of` applied to the input's values.
pub fn sorted_tasks(v: &Vec<Task>, k: SortKey) -> (r: Vec<Task>)
    requires
        forall|i: int| 0 <= i < v@.len() ==> (#[trigger] v@[i]).wf(),
    ensures
        views_of(r@) == sort_of(views_of(v@), k),
        forall|i: int| 0 <= i < r@.len() ==> (#[trigger] r@[i]).wf(),
{
    let mut out: Vec<Task> = Vec::new();
    let n = v.len();
    let mut i: usize = 0;
    proof {
        assert(views_of(v@.subrange(0, 0)) =~= Seq::<TaskView>::empty());
        assert(views_of(out@) =~= sort_of(views_of(v@.subrange(0, 0)), k));
    }
    while i < n
        invariant
            0 <= i <= n,
            n == v@.len(),
            forall|j: int| 0 <= j < v@.len() ==> (#[trigger] v@[j]).wf(),
            views_of(out@) == sort_of(views_of(v@.subrange(0, i as int)), k),
            forall|j: int| 0 <= j < out@.len() ==> (#[trigger] out@[j]).wf(),
        decreases n - i,
    {
        let x = clone_task(&v[i]);
        let ghost pre = out@;
        let mut p: usize = out.len();
        while p > 0 && key_of(k, &out[p - 1]) > key_of(k, &x)
            invariant
                0 <= p <= out@.len(),
                out@ == pre,
                x@ == v@[i as int]@,
                forall|j: int|
                    p <= j < out@.len() ==> sort_key(k, #[trigger] out@[j]@) > sort_key(k, x@),
            decreases p,
        {
            p = p - 1;
        }
        out.insert(p, x);
        proof {
            assert(forall|j: int| p <= j < pre.len() ==> sort_key(
                k,
                #[trigger] views_of(pre)[j],
            ) > sort_key(k, x@));
            if p > 0 {
                assert(sort_key(k, views_of(pre)[p - 1]) <= sort_key(k, x@));
            }
            lemma_insert_sorted_at(views_of(pre), x@, k, p as int);
            assert(views_of(out@) =~= views_of(pre).subrange(0, p as int) + seq![x@]
                + views_of(pre).subrange(p as int, pre.len() as int));
            let a = views_of(v@.subrange(0, i as int + 1));
            assert(a.drop_last() =~= views_of(v@.subrange(0, i as int)));
            assert(a.last() == v@[i as int]@);
            assert(sort_of(a, k) == insert_sorted(sort_of(a.drop_last(), k), a.last(), k));
            assert(views_of(out@) == sort_of(views_of(v@.subrange(0, i as int + 1)), k));
        }
        i = i + 1;
    }
    proof {
        assert(v@.subrange(0, n as int) =~= v@);
    }
    out
}

/// Every element of the sort is an element of the input.
pub proof fn lemma_sort_of_element(s: Seq<TaskView>, k: SortKey, i: int)
    requires
        0 <= i < sort_of(s, k).len(),
    ensures
        exists|j: int| 0 <= j < s.len() && #[trigger] s[j] == sort_of(s, k)[i],
{
    broadcast use vstd::seq_lib::group_to_multiset_ensures;

    let t = sort_of(s, k);
    lemma_sort_of_multiset(s, k);
    assert(t.contains(t[i]));
    assert(t.to_multiset().count(t[i]) > 0);
    assert(s.to_multiset().count(t[i]) > 0);
    assert(s.contains(t[i]));
}

/// Sorting by due date puts every task without a due date after every
/// task with one, and the due dates themselves come out in
/// non-decreasing order.
pub proof fn lemma_due_sort_order(s: Seq<TaskView>)
    requires
        forall|i: int| 0 <= i < s.len() ==> task_view_wf(#[trigger] s[i]),
    ensures
        forall|i: int, j: int|
            0 <= i < j < sort_of(s, SortKey::Due).len() && (#[trigger] sort_of(
                s,
                SortKey::Due,
            )[i]).due is None ==> (#[trigger] sort_of(s, SortKey::Due)[j]).due is None,
        forall|i: int, j: int|
            0 <= i < j < sort_of(s, SortKey::Due).len() && (#[trigger] sort_of(
                s,
                SortKey::Due,
            )[i]).due is Some && (#[trigger] sort_of(s, SortKey::Due)[j]).due is Some ==> sort_of(
                s,
                SortKey::Due,
            )[i].due->0 <= sort_of(s, SortKey::Due)[j].due->0,
{
    let t = sort_of(s, SortKey::Due);
    lemma_sort_of_sorted(s, SortKey::Due);
    assert forall|i: int| 0 <= i < t.len() implies task_view_wf(#[trigger] t[i]) by {
        lemma_sort_of_element(s, SortKey::Due, i);
    }
    assert forall|i: int, j: int|
        0 <= i < j < t.len() && (#[trigger] t[i]).due is None implies (#[trigger] t[j]).due
        is None by {
        assert(sort_key(SortKey::Due, t[i]) <= sort_key(SortKey::Due, t[j]));
        if t[j].due is Some {
            assert(sort_key(SortKey::Due, t[j]) <= TS_MAX);
            assert(sort_key(SortKey::Due, t[i]) == TS_MAX + 1);
        }
    }
    assert forall|i: int, j: int|
        0 <= i < j < t.len() && (#[trigger] t[i]).due is Some && (#[trigger] t[j]).due
        is Some implies t[i].due->0 <= t[j].due->0 by {
        assert(sort_key(SortKey::Due, t[i]) <= sort_key(SortKey::Due, t[j]));
    }
}

/// Sorting by importance and then by creation date restores a sequence
/// that was in creation order, provided no two creation stamps are
/// equal: the second sort has only one sorted arrangement to produce,
/// and it is the original.
pub proof fn lemma_importance_then_created_restores(s: Seq<TaskView>)
    requires
        sorted_by(s, SortKey::Created),
        distinct_keys(s, SortKey::Created),
    ensures
        sort_of(sort_of(s, SortKey::Importance), SortKey::Created) == s,
{
    let m = sort_of(s, SortKey::Importance);
    let t = sort_of(m, SortKey::Created);
    lemma_sort_of_multiset(s, SortKey::Importance);
    lemma_sort_of_multiset(m, SortKey::Created);
    lemma_sort_of_sorted(m, SortKey::Created);
    lemma_sorted_distinct_unique(s, t, SortKey::Created);
}

} // verus!
