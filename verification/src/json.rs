//! The persistence format: a JSON array of task records, each holding
//! `title`, `description`, `importance`, `due_date`, `date_created` and
//! `sub_tasks`, with the literal text `None` standing in for a missing
//! description or due date, and timestamps stored as their
//! `YYYY-MM-DD HH:MM:SS` text.
//!
//! The exact text a store serializes to is written out as a
//! specification function, the serializer is proved to produce it, and
//! the parser is proved to read every such text back to the same store.

use vstd::prelude::*;

use crate::date::{ts_text, plain_text, is_date_char, ts_in_range, format_ts, parse_ts, TS_MAX};
use crate::task::{Task, TaskView, LeafView, leaf_of, leaf_wf, leaf_part, task_view_wf, views_of,
    opt_str_view, opt_ts_view};
use crate::store::TaskList;
use crate::text::{dec_digits, dec_val, is_digit, chars_to_string, push_dec, str_eq,
    lemma_dec_digits_are_digits};

verus! {

// ---------------------------------------------------------------------
// The text form, as specification.
// ---------------------------------------------------------------------

/// How one character is written inside a JSON string: quote, backslash,
/// newline, carriage return and tab get two-character escapes, every
/// other character stands for itself.
pub open spec fn esc_char(c: char) -> Seq<char> {
    if c == '"' {
        seq!['\\', '"']
    } else if c == '\\' {
        seq!['\\', '\\']
    } else if c == '\n' {
        seq!['\\', 'n']
    } else if c == '\r' {
        seq!['\\', 'r']
    } else if c == '\t' {
        seq!['\\', 't']
    } else {
        seq![c]
    }
}

/// Whether `c` is written as a two-character escape.
pub open spec fn is_esc_special(c: char) -> bool {
    c == '"' || c == '\\' || c == '\n' || c == '\r' || c == '\t'
}

/// The escaped form of a string.
pub open spec fn esc(s: Seq<char>) -> Seq<char>
    decreases s.len(),
{
    if s.len() == 0 {
        Seq::empty()
    } else {
        esc_char(s[0]) + esc(s.drop_first())
    }
}

/// The text stored in the description field: the description itself,
/// or the sentinel `None`.
pub open spec fn desc_inner(o: Option<Seq<char>>) -> Seq<char> {
    match o {
        Option::Some(d) => d,
        Option::None => "None"@,
    }
}

/// The text stored in the due-date field: the timestamp's text, or the
/// sentinel `None`.
pub open spec fn due_inner(o: Option<int>) -> Seq<char> {
    match o {
        Option::Some(d) => ts_text(d),
        Option::None => "None"@,
    }
}

/// The fields of a task record up to and including the `[` that opens
/// its sub-task list.
pub open spec fn head_text(l: LeafView) -> Seq<char> {
    "{\"title\":\""@ + esc(l.title) + "\",\"description\":\""@ + esc(desc_inner(l.description))
        + "\",\"importance\":"@ + dec_digits(l.importance as nat) + ",\"due_date\":\""@ + esc(
        due_inner(l.due),
    ) + "\",\"date_created\":\""@ + esc(ts_text(l.created)) + "\",\"sub_tasks\":["@
}

/// A whole sub-task record: its sub-task list is empty.
pub open spec fn leaf_text(l: LeafView) -> Seq<char> {
    head_text(l) + "]}"@
}

/// The comma-joined sub-task records.
pub open spec fn subs_text(ss: Seq<LeafView>) -> Seq<char>
    decreases ss.len(),
{
    if ss.len() == 0 {
        Seq::empty()
    } else if ss.len() == 1 {
        leaf_text(ss[0])
    } else {
        leaf_text(ss[0]) + ","@ + subs_text(ss.drop_first())
    }
}

/// A whole task record.
pub open spec fn task_text(t: TaskView) -> Seq<char> {
    head_text(leaf_part(t)) + subs_text(t.subs) + "]}"@
}

/// The comma-joined task records.
pub open spec fn tasks_text(ts: Seq<TaskView>) -> Seq<char>
    decreases ts.len(),
{
    if ts.len() == 0 {
        Seq::empty()
    } else if ts.len() == 1 {
        task_text(ts[0])
    } else {
        task_text(ts[0]) + ","@ + tasks_text(ts.drop_first())
    }
}

/// The text a whole store persists as.
pub open spec fn store_text(ts: Seq<TaskView>) -> Seq<char> {
    "["@ + tasks_text(ts) + "]"@
}

/// The date texts of a task are made of date characters only; the
/// serializer learns this from the formatter and hands it to the
/// parser's round-trip argument.
pub open spec fn leaf_plain(l: LeafView) -> bool {
    &&& plain_text(ts_text(l.created))
    &&& (l.due matches Some(d) ==> plain_text(ts_text(d)))
}

pub open spec fn task_plain(t: TaskView) -> bool {
    &&& leaf_plain(leaf_part(t))
    &&& (forall|i: int| 0 <= i < t.subs.len() ==> leaf_plain(#[trigger] t.subs[i]))
}

pub open spec fn store_plain(ts: Seq<TaskView>) -> bool {
    forall|i: int| 0 <= i < ts.len() ==> task_plain(#[trigger] ts[i])
}

/// A description never colliding with the sentinel: the one store the
/// text form cannot carry faithfully is a task whose description is
/// the literal text `None`.
pub open spec fn leaf_sentinel_free(l: LeafView) -> bool {
    l.description != Option::Some("None"@)
}

pub open spec fn task_sentinel_free(t: TaskView) -> bool {
    &&& leaf_sentinel_free(leaf_part(t))
    &&& (forall|i: int| 0 <= i < t.subs.len() ==> leaf_sentinel_free(#[trigger] t.subs[i]))
}

pub open spec fn store_sentinel_free(ts: Seq<TaskView>) -> bool {
    forall|i: int| 0 <= i < ts.len() ==> task_sentinel_free(#[trigger] ts[i])
}

// ---------------------------------------------------------------------
// Escaping lemmas.
// ---------------------------------------------------------------------

/// Escaping one more character appends its escape.
pub proof fn lemma_esc_snoc(s: Seq<char>, c: char)
    ensures
        esc(s.push(c)) == esc(s) + esc_char(c),
    decreases s.len(),
{
    let p = s.push(c);
    if s.len() == 0 {
        assert(p[0] == c);
        assert(p.drop_first() =~= Seq::<char>::empty());
        assert(esc(p.drop_first()) =~= Seq::<char>::empty());
        assert(esc(p) == esc_char(c) + esc(p.drop_first()));
        assert(esc(s) =~= Seq::<char>::empty());
        assert(esc(p) =~= esc(s) + esc_char(c));
    } else {
        assert(p.drop_first() =~= s.drop_first().push(c));
        lemma_esc_snoc(s.drop_first(), c);
        assert(esc(p) == esc_char(p[0]) + esc(p.drop_first()));
        assert(p[0] == s[0]);
        assert(esc(p.drop_first()) == esc(s.drop_first()) + esc_char(c));
        assert(esc(s) == esc_char(s[0]) + esc(s.drop_first()));
        assert(esc(p) =~= esc(s) + esc_char(c));
    }
}

/// A string without special characters escapes to itself.
pub proof fn lemma_esc_id(s: Seq<char>)
    requires
        forall|i: int| 0 <= i < s.len() ==> !is_esc_special(#[trigger] s[i]),
    ensures
        esc(s) == s,
    decreases s.len(),
{
    if s.len() > 0 {
        lemma_esc_id(s.drop_first());
        assert(esc_char(s[0]) =~= seq![s[0]]);
        assert(esc(s) =~= s);
    } else {
        assert(esc(s) =~= s);
    }
}

/// Date characters are never escaped.
pub proof fn lemma_esc_plain(s: Seq<char>)
    requires
        plain_text(s),
    ensures
        esc(s) == s,
{
    assert forall|i: int| 0 <= i < s.len() implies !is_esc_special(#[trigger] s[i]) by {
        assert(is_date_char(s[i]));
    }
    lemma_esc_id(s);
}

/// The sentinel text escapes to itself.
pub proof fn lemma_esc_none_text()
    ensures
        esc("None"@) == "None"@,
{
    reveal_strlit("None");
    assert forall|i: int| 0 <= i < "None"@.len() implies !is_esc_special(#[trigger] "None"@[i])
        by {}
    lemma_esc_id("None"@);
}

// ---------------------------------------------------------------------
// The serializer.
// ---------------------------------------------------------------------

/// Appends the characters of `s`.
fn push_str(out: &mut Vec<char>, s: &str)
    ensures
        final(out)@ == old(out)@ + s@,
{
    let len = s.unicode_len();
    let mut i: usize = 0;
    while i < len
        invariant
            0 <= i <= len,
            len == s@.len(),
            out@ == old(out)@ + s@.subrange(0, i as int),
        decreases len - i,
    {
        out.push(s.get_char(i));
        proof {
            assert(old(out)@ + s@.subrange(0, i as int + 1) =~= (old(out)@ + s@.subrange(
                0,
                i as int,
            )).push(s@[i as int]));
        }
        i = i + 1;
    }
    proof {
        assert(s@.subrange(0, len as int) =~= s@);
    }
}

/// Appends the escaped form of one character.
fn push_esc_char(out: &mut Vec<char>, c: char)
    ensures
        final(out)@ == old(out)@ + esc_char(c),
{
    if c == '"' {
        out.push('\\');
        out.push('"');
    } else if c == '\\' {
        out.push('\\');
        out.push('\\');
    } else if c == '\n' {
        out.push('\\');
        out.push('n');
    } else if c == '\r' {
        out.push('\\');
        out.push('r');
    } else if c == '\t' {
        out.push('\\');
        out.push('t');
    } else {
        out.push(c);
    }
    proof {
        assert(out@ =~= old(out)@ + esc_char(c));
    }
}

/// Appends the escaped form of `s`.
fn push_esc(out: &mut Vec<char>, s: &str)
    ensures
        final(out)@ == old(out)@ + esc(s@),
{
    let len = s.unicode_len();
    let mut i: usize = 0;
    proof {
        assert(esc(s@.subrange(0, 0)) =~= Seq::<char>::empty());
        assert(out@ =~= old(out)@ + esc(s@.subrange(0, 0)));
    }
    while i < len
        invariant
            0 <= i <= len,
            len == s@.len(),
            out@ == old(out)@ + esc(s@.subrange(0, i as int)),
        decreases len - i,
    {
        proof {
            assert(s@.subrange(0, i as int + 1) =~= s@.subrange(0, i as int).push(s@[i as int]));
            lemma_esc_snoc(s@.subrange(0, i as int), s@[i as int]);
        }
        push_esc_char(out, s.get_char(i));
        i = i + 1;
    }
    proof {
        assert(s@.subrange(0, len as int) =~= s@);
    }
}

/// Appends the head of one record: every field through the `[` that
/// opens the sub-task list.
fn push_head(out: &mut Vec<char>, t: &Task)
    requires
        leaf_wf(leaf_of(*t)),
    ensures
        final(out)@ == old(out)@ + head_text(leaf_of(*t)),
        leaf_plain(leaf_of(*t)),
{
    push_str(out, "{\"title\":\"");
    push_esc(out, self_title(t));
    push_str(out, "\",\"description\":\"");
    match &t.description {
        Option::Some(d) => push_esc(out, d.as_str()),
        Option::None => {
            proof {
                lemma_esc_none_text();
            }
            push_str(out, "None");
        },
    }
    push_str(out, "\",\"importance\":");
    push_dec(t.importance as u64, out);
    push_str(out, ",\"due_date\":\"");
    match &t.due_date {
        Option::Some(d) => {
            let ds = format_ts(*d);
            proof {
                lemma_esc_plain(ds@);
            }
            push_str(out, ds.as_str());
        },
        Option::None => {
            proof {
                lemma_esc_none_text();
            }
            push_str(out, "None");
        },
    }
    push_str(out, "\",\"date_created\":\"");
    let cs = format_ts(t.date_created);
    proof {
        lemma_esc_plain(cs@);
    }
    push_str(out, cs.as_str());
    push_str(out, "\",\"sub_tasks\":[");
    proof {
        assert(out@ =~= old(out)@ + head_text(leaf_of(*t)));
    }
}

fn self_title(t: &Task) -> (r: &str)
    ensures
        r@ == t.title@,
{
    t.title.as_str()
}

/// Appends one whole sub-task record.
fn push_leaf(out: &mut Vec<char>, t: &Task)
    requires
        leaf_wf(leaf_of(*t)),
    ensures
        final(out)@ == old(out)@ + leaf_text(leaf_of(*t)),
        leaf_plain(leaf_of(*t)),
{
    push_head(out, t);
    push_str(out, "]}");
    proof {
        assert(out@ =~= old(out)@ + leaf_text(leaf_of(*t)));
    }
}

/// One more record in a comma-joined list.
proof fn lemma_subs_text_snoc(ss: Seq<LeafView>, x: LeafView)
    requires
        ss.len() > 0,
    ensures
        subs_text(ss.push(x)) == subs_text(ss) + ","@ + leaf_text(x),
    decreases ss.len(),
{
    let t = ss.push(x);
    assert(t.len() == ss.len() + 1);
    if ss.len() == 1 {
        assert(t.drop_first() =~= seq![x]);
        assert(subs_text(t.drop_first()) == leaf_text(t.drop_first()[0]));
        assert(t.drop_first()[0] == x);
        assert(subs_text(t) == leaf_text(t[0]) + ","@ + subs_text(t.drop_first()));
        assert(t[0] == ss[0]);
        assert(subs_text(ss) == leaf_text(ss[0]));
        assert(subs_text(t) =~= subs_text(ss) + ","@ + leaf_text(x));
    } else {
        assert(t.drop_first() =~= ss.drop_first().push(x));
        lemma_subs_text_snoc(ss.drop_first(), x);
        assert(subs_text(t) == leaf_text(t[0]) + ","@ + subs_text(t.drop_first()));
        assert(subs_text(t.drop_first()) == subs_text(ss.drop_first()) + ","@ + leaf_text(x));
        assert(subs_text(ss) == leaf_text(ss[0]) + ","@ + subs_text(ss.drop_first()));
        assert(t[0] == ss[0]);
        assert(subs_text(t) =~= subs_text(ss) + ","@ + leaf_text(x));
    }
}

proof fn lemma_tasks_text_snoc(ts: Seq<TaskView>, x: TaskView)
    requires
        ts.len() > 0,
    ensures
        tasks_text(ts.push(x)) == tasks_text(ts) + ","@ + task_text(x),
    decreases ts.len(),
{
    let t = ts.push(x);
    assert(t.len() == ts.len() + 1);
    if ts.len() == 1 {
        assert(t.drop_first() =~= seq![x]);
        assert(tasks_text(t.drop_first()) == task_text(t.drop_first()[0]));
        assert(t.drop_first()[0] == x);
        assert(tasks_text(t) == task_text(t[0]) + ","@ + tasks_text(t.drop_first()));
        assert(t[0] == ts[0]);
        assert(tasks_text(ts) == task_text(ts[0]));
        assert(tasks_text(t) =~= tasks_text(ts) + ","@ + task_text(x));
    } else {
        assert(t.drop_first() =~= ts.drop_first().push(x));
        lemma_tasks_text_snoc(ts.drop_first(), x);
        assert(tasks_text(t) == task_text(t[0]) + ","@ + tasks_text(t.drop_first()));
        assert(tasks_text(t.drop_first()) == tasks_text(ts.drop_first()) + ","@ + task_text(x));
        assert(tasks_text(ts) == task_text(ts[0]) + ","@ + tasks_text(ts.drop_first()));
        assert(t[0] == ts[0]);
        assert(tasks_text(t) =~= tasks_text(ts) + ","@ + task_text(x));
    }
}

/// Appends one whole task record.
fn push_task(out: &mut Vec<char>, t: &Task)
    requires
        t.wf(),
    ensures
        final(out)@ == old(out)@ + task_text(t@),
        task_plain(t@),
{
    proof {
        assert(leaf_wf(leaf_of(*t)));
    }
    push_head(out, t);
    let ghost mid = out@;
    let n = t.sub_tasks.len();
    let mut i: usize = 0;
    proof {
        assert(subs_text(t@.subs.subrange(0, 0)) =~= Seq::<char>::empty());
        assert(out@ =~= mid + subs_text(t@.subs.subrange(0, 0)));
    }
    while i < n
        invariant
            0 <= i <= n,
            n == t.sub_tasks@.len(),
            t.wf(),
            out@ == mid + subs_text(t@.subs.subrange(0, i as int)),
            forall|j: int| 0 <= j < i ==> leaf_plain(#[trigger] t@.subs[j]),
        decreases n - i,
    {
        if i > 0 {
            push_str(out, ",");
        }
        let s = &t.sub_tasks[i];
        proof {
            assert(t@.subs[i as int] == leaf_of(t.sub_tasks@[i as int]));
            assert(leaf_wf(leaf_of(*s)));
        }
        push_leaf(out, s);
        proof {
            let pre = t@.subs.subrange(0, i as int);
            let cur = t@.subs.subrange(0, i as int + 1);
            assert(cur =~= pre.push(t@.subs[i as int]));
            if i > 0 {
                lemma_subs_text_snoc(pre, t@.subs[i as int]);
            }
            assert(out@ =~= mid + subs_text(cur));
        }
        i = i + 1;
    }
    push_str(out, "]}");
    proof {
        assert(t@.subs.subrange(0, n as int) =~= t@.subs);
        assert(leaf_part(t@) =~= leaf_of(*t));
        assert(out@ =~= old(out)@ + task_text(t@));
    }
}

// ---------------------------------------------------------------------
// The parser, as specification: a strict reader of the text form.
// ---------------------------------------------------------------------

/// Whether `c` may follow a backslash in a string.
pub open spec fn unesc_ok(c: char) -> bool {
    c == '"' || c == '\\' || c == 'n' || c == 'r' || c == 't'
}

/// The character a two-character escape stands for.
pub open spec fn unesc(c: char) -> char {
    if c == '"' {
        '"'
    } else if c == '\\' {
        '\\'
    } else if c == 'n' {
        '\n'
    } else if c == 'r' {
        '\r'
    } else {
        '\t'
    }
}

/// Reads a string body from just after its opening quote through its
/// closing quote, undoing escapes; the position returned is just past
/// the closing quote.
pub open spec fn scan_str(v: Seq<char>, i: int) -> Option<(Seq<char>, int)>
    decreases v.len() - i,
{
    if i < 0 || i >= v.len() {
        Option::None
    } else if v[i] == '"' {
        Option::Some((Seq::empty(), i + 1))
    } else if v[i] == '\\' {
        if i + 1 < v.len() && unesc_ok(v[i + 1]) {
            match scan_str(v, i + 2) {
                Option::Some((s, e)) => Option::Some((seq![unesc(v[i + 1])] + s, e)),
                Option::None => Option::None,
            }
        } else {
            Option::None
        }
    } else {
        match scan_str(v, i + 1) {
            Option::Some((s, e)) => Option::Some((seq![v[i]] + s, e)),
            Option::None => Option::None,
        }
    }
}

/// Whether the literal `lit` stands at position `i`.
pub open spec fn lit_at(v: Seq<char>, i: int, lit: Seq<char>) -> bool {
    0 <= i && i + lit.len() <= v.len() && v.subrange(i, i + lit.len()) == lit
}

/// The length of the digit run at `i`.
pub open spec fn digits_len(v: Seq<char>, i: int) -> nat
    decreases v.len() - i,
{
    if i < 0 || i >= v.len() {
        0
    } else if is_digit(v[i]) {
        (1 + digits_len(v, i + 1)) as nat
    } else {
        0
    }
}

/// Reads the non-empty digit run at `i` as a number, refusing one that
/// does not fit `u64`.
pub open spec fn scan_num(v: Seq<char>, i: int) -> Option<(nat, int)> {
    let dl = digits_len(v, i) as int;
    if dl == 0 {
        Option::None
    } else {
        let val = dec_val(v.subrange(i, i + dl));
        if val > u64::MAX {
            Option::None
        } else {
            Option::Some((val, i + dl))
        }
    }
}

/// The raw fields of one record, before dates and sentinels are
/// interpreted.
pub ghost struct RawLeaf {
    pub title: Seq<char>,
    pub desc: Seq<char>,
    pub imp: nat,
    pub due_s: Seq<char>,
    pub created_s: Seq<char>,
}

/// The raw fields a good leaf serializes to.
pub open spec fn raw_of(l: LeafView) -> RawLeaf {
    RawLeaf {
        title: l.title,
        desc: desc_inner(l.description),
        imp: l.importance as nat,
        due_s: due_inner(l.due),
        created_s: ts_text(l.created),
    }
}

/// Reads the fields of one record through the `[` that opens its
/// sub-task list.
pub open spec fn p_head(v: Seq<char>, i: int) -> Option<(RawLeaf, int)> {
    if !lit_at(v, i, "{\"title\":\""@) {
        Option::None
    } else {
        match scan_str(v, i + "{\"title\":\""@.len()) {
            Option::None => Option::None,
            Option::Some((title, i2)) => if !lit_at(v, i2, ",\"description\":\""@) {
                Option::None
            } else {
                match scan_str(v, i2 + ",\"description\":\""@.len()) {
                    Option::None => Option::None,
                    Option::Some((desc, i4)) => if !lit_at(v, i4, ",\"importance\":"@) {
                        Option::None
                    } else {
                        match scan_num(v, i4 + ",\"importance\":"@.len()) {
                            Option::None => Option::None,
                            Option::Some((imp, i6)) => if !lit_at(v, i6, ",\"due_date\":\""@) {
                                Option::None
                            } else {
                                match scan_str(v, i6 + ",\"due_date\":\""@.len()) {
                                    Option::None => Option::None,
                                    Option::Some((due_s, i8)) => if !lit_at(
                                        v,
                                        i8,
                                        ",\"date_created\":\""@,
                                    ) {
                                        Option::None
                                    } else {
                                        match scan_str(v, i8 + ",\"date_created\":\""@.len()) {
                                            Option::None => Option::None,
                                            Option::Some((created_s, i10)) => if !lit_at(
                                                v,
                                                i10,
                                                ",\"sub_tasks\":["@,
                                            ) {
                                                Option::None
                                            } else {
                                                Option::Some(
                                                    (
                                                        RawLeaf {
                                                            title,
                                                            desc,
                                                            imp,
                                                            due_s,
                                                            created_s,
                                                        },
                                                        i10 + ",\"sub_tasks\":["@.len(),
                                                    ),
                                                )
                                            },
                                        }
                                    },
                                }
                            },
                        }
                    },
                }
            },
        }
    }
}

/// Reads one whole sub-task record: a head whose sub-task list closes
/// at once.
pub open spec fn p_leaf(v: Seq<char>, i: int) -> Option<(RawLeaf, int)> {
    match p_head(v, i) {
        Option::None => Option::None,
        Option::Some((raw, j)) => if lit_at(v, j, "]}"@) {
            Option::Some((raw, j + 2))
        } else {
            Option::None
        },
    }
}

/// Reads the rest of a record list from a position where an element or
/// the closing `]` is expected; the position returned is just past the
/// `]`. The position bump only guards the recursion: a record is never
/// empty.
pub open spec fn p_subs(v: Seq<char>, i: int) -> Option<(Seq<RawLeaf>, int)>
    decreases v.len() - i,
{
    if i < 0 || i >= v.len() {
        Option::None
    } else if v[i] == ']' {
        Option::Some((Seq::empty(), i + 1))
    } else {
        match p_leaf(v, i) {
            Option::None => Option::None,
            Option::Some((r, j)) => {
                let jn = if j < i + 1 {
                    i + 1
                } else {
                    j
                };
                if jn >= v.len() {
                    Option::None
                } else if v[jn] == ',' {
                    match p_subs(v, jn + 1) {
                        Option::None => Option::None,
                        Option::Some((rest, e)) => Option::Some((seq![r] + rest, e)),
                    }
                } else if v[jn] == ']' {
                    Option::Some((seq![r], jn + 1))
                } else {
                    Option::None
                }
            },
        }
    }
}

/// The raw fields of one whole task record.
pub ghost struct RawTask {
    pub head: RawLeaf,
    pub subs: Seq<RawLeaf>,
}

/// Reads one whole task record: a head, its sub-task list, and the
/// closing brace.
pub open spec fn p_task(v: Seq<char>, i: int) -> Option<(RawTask, int)> {
    match p_head(v, i) {
        Option::None => Option::None,
        Option::Some((h, j)) => match p_subs(v, j) {
            Option::None => Option::None,
            Option::Some((ss, e)) => if 0 <= e < v.len() && v[e] == '}' {
                Option::Some((RawTask { head: h, subs: ss }, e + 1))
            } else {
                Option::None
            },
        },
    }
}

/// Reads the rest of the top-level record list, as `p_subs` does for
/// sub-tasks.
pub open spec fn p_tasks(v: Seq<char>, i: int) -> Option<(Seq<RawTask>, int)>
    decreases v.len() - i,
{
    if i < 0 || i >= v.len() {
        Option::None
    } else if v[i] == ']' {
        Option::Some((Seq::empty(), i + 1))
    } else {
        match p_task(v, i) {
            Option::None => Option::None,
            Option::Some((r, j)) => {
                let jn = if j < i + 1 {
                    i + 1
                } else {
                    j
                };
                if jn >= v.len() {
                    Option::None
                } else if v[jn] == ',' {
                    match p_tasks(v, jn + 1) {
                        Option::None => Option::None,
                        Option::Some((rest, e)) => Option::Some((seq![r] + rest, e)),
                    }
                } else if v[jn] == ']' {
                    Option::Some((seq![r], jn + 1))
                } else {
                    Option::None
                }
            },
        }
    }
}

/// Reads a whole store text: the bracketed task list and nothing after
/// it.
pub open spec fn p_store(v: Seq<char>) -> Option<Seq<RawTask>> {
    if v.len() < 1 || v[0] != '[' {
        Option::None
    } else {
        match p_tasks(v, 1) {
            Option::None => Option::None,
            Option::Some((ts, e)) => if e == v.len() {
                Option::Some(ts)
            } else {
                Option::None
            },
        }
    }
}

// ---------------------------------------------------------------------
// The parser, on the machine: each reader computes what its
// specification says.
// ---------------------------------------------------------------------

/// The characters of a string, one by one.
fn str_to_chars(s: &str) -> (v: Vec<char>)
    ensures
        v@ == s@,
{
    let len = s.unicode_len();
    let mut v: Vec<char> = Vec::new();
    let mut i: usize = 0;
    while i < len
        invariant
            0 <= i <= len,
            len == s@.len(),
            v@ == s@.subrange(0, i as int),
        decreases len - i,
    {
        v.push(s.get_char(i));
        proof {
            assert(s@.subrange(0, i as int + 1) =~= s@.subrange(0, i as int).push(s@[i as int]));
        }
        i = i + 1;
    }
    proof {
        assert(s@.subrange(0, len as int) =~= s@);
    }
    v
}

fn unesc_exec(c: char) -> (r: Option<char>)
    ensures
        r is Some <==> unesc_ok(c),
        r matches Some(u) ==> u == unesc(c),
{
    if c == '"' {
        Option::Some('"')
    } else if c == '\\' {
        Option::Some('\\')
    } else if c == 'n' {
        Option::Some('\n')
    } else if c == 'r' {
        Option::Some('\r')
    } else if c == 't' {
        Option::Some('\t')
    } else {
        Option::None
    }
}

/// Reads one string body, as `scan_str` says.
fn scan_str_exec(v: &Vec<char>, i: usize) -> (r: Option<(Vec<char>, usize)>)
    requires
        i <= v@.len(),
    ensures
        r is None <==> scan_str(v@, i as int) is None,
        r matches Some((s, e)) ==> scan_str(v@, i as int) == Option::Some((s@, e as int)) && i < e
            <= v@.len(),
    {
    let mut j: usize = i;
    let mut out: Vec<char> = Vec::new();
    loop
        invariant
            i <= j <= v@.len(),
            scan_str(v@, i as int) == (match scan_str(v@, j as int) {
                Option::Some((s, e)) => Option::<(Seq<char>, int)>::Some((out@ + s, e)),
                Option::None => Option::None,
            }),
        decreases v@.len() - j,
    {
        if j >= v.len() {
            return Option::None;
        }
        let c = v[j];
        if c == '"' {
            proof {
                assert(out@ + Seq::<char>::empty() =~= out@);
            }
            return Option::Some((out, j + 1));
        } else if c == '\\' {
            if j + 1 < v.len() {
                match unesc_exec(v[j + 1]) {
                    Option::Some(u) => {
                        let ghost pre = out@;
                        out.push(u);
                        proof {
                            assert forall|s: Seq<char>| true implies pre + (seq![u] + s) =~= (
                            pre.push(u)) + s by {}
                        }
                        j = j + 2;
                    },
                    Option::None => {
                        return Option::None;
                    },
                }
            } else {
                return Option::None;
            }
        } else {
            let ghost pre = out@;
            out.push(c);
            proof {
                assert forall|s: Seq<char>| true implies pre + (seq![c] + s) =~= (pre.push(c))
                    + s by {}
            }
            j = j + 1;
        }
    }
}

/// Checks one literal, as `lit_at` says.
fn expect_lit(v: &Vec<char>, i: usize, lit: &str) -> (r: Option<usize>)
    requires
        i <= v@.len(),
    ensures
        r is Some <==> lit_at(v@, i as int, lit@),
        r matches Some(j) ==> j == i + lit@.len() && i <= j <= v@.len(),
{
    let llen = lit.unicode_len();
    if llen > v.len() - i {
        return Option::None;
    }
    let mut k: usize = 0;
    while k < llen
        invariant
            0 <= k <= llen,
            i + llen <= v@.len(),
            v@.len() <= usize::MAX,
            llen == lit@.len(),
            forall|m: int| 0 <= m < k ==> v@[i + m] == lit@[m],
        decreases llen - k,
    {
        if v[i + k] != lit.get_char(k) {
            proof {
                assert(v@.subrange(i as int, i as int + lit@.len() as int)[k as int] != lit@[
                    k as int]);
            }
            return Option::None;
        }
        k = k + 1;
    }
    proof {
        assert(v@.subrange(i as int, i as int + lit@.len() as int) =~= lit@);
    }
    Option::Some(i + llen)
}

fn is_digit_exec(c: char) -> (r: bool)
    ensures
        r == is_digit(c),
{
    let u = c as u32;
    48 <= u && u <= 57
}

/// The digit run fits inside the text.
proof fn lemma_digits_len_le(v: Seq<char>, i: int)
    requires
        0 <= i <= v.len(),
    ensures
        i + digits_len(v, i) <= v.len(),
    decreases v.len() - i,
{
    if i < v.len() && is_digit(v[i]) {
        lemma_digits_len_le(v, i + 1);
    }
}

proof fn lemma_digits_len_at(v: Seq<char>, i: int, j: int)
    requires
        0 <= i <= j <= v.len(),
        forall|m: int| i <= m < j ==> is_digit(#[trigger] v[m]),
        j < v.len() ==> !is_digit(v[j]),
    ensures
        digits_len(v, i) == j - i,
    decreases j - i,
{
    if i < j {
        lemma_digits_len_at(v, i + 1, j);
    }
}

/// Reads one number, as `scan_num` says.
fn scan_num_exec(v: &Vec<char>, i: usize) -> (r: Option<(u64, usize)>)
    requires
        i <= v@.len(),
    ensures
        r is None <==> scan_num(v@, i as int) is None,
        r matches Some((val, e)) ==> scan_num(v@, i as int) == Option::Some(
            (val as nat, e as int),
        ) && i < e <= v@.len(),
{
    let len = v.len();
    let mut j: usize = i;
    let mut acc: u64 = 0;
    while j < len && is_digit_exec(v[j])
        invariant
            i <= j <= len,
            len == v@.len(),
            forall|m: int| i <= m < j ==> is_digit(#[trigger] v@[m]),
            acc as nat == dec_val(v@.subrange(i as int, j as int)),
        decreases len - j,
    {
        let c = v[j];
        let d = (c as u32 - 48) as u64;
        proof {
            let pre = v@.subrange(i as int, j as int + 1);
            assert(pre.drop_last() =~= v@.subrange(i as int, j as int));
            assert(pre.last() == v@[j as int]);
        }
        if acc > (u64::MAX - d) / 10 {
            proof {
                let pre = v@.subrange(i as int, j as int + 1);
                assert(pre.len() >= 1);
                let dl = digits_len(v@, i as int) as int;
                lemma_digits_len_at_ge(v@, i as int, j as int + 1);
                lemma_digits_len_le(v@, i as int);
                assert(dl >= j + 1 - i);
                let full = v@.subrange(i as int, i as int + dl);
                crate::text::lemma_dec_val_extend_ge(pre, full);
                assert(acc * 10 + d > u64::MAX) by (nonlinear_arith)
                    requires
                        acc > (u64::MAX - d) / 10,
                        0 <= d < 10,
                        acc >= 0,
                ;
                assert(dec_val(full) > u64::MAX);
            }
            return Option::None;
        }
        proof {
            assert(acc * 10 + d <= u64::MAX) by (nonlinear_arith)
                requires
                    acc <= (u64::MAX - d) / 10,
                    0 <= d < 10,
                    acc >= 0,
            ;
        }
        acc = acc * 10 + d;
        j = j + 1;
    }
    proof {
        lemma_digits_len_at(v@, i as int, j as int);
    }
    if j == i {
        return Option::None;
    }
    Option::Some((acc, j))
}

/// The digit run at `i` reaches at least to `j`.
proof fn lemma_digits_len_at_ge(v: Seq<char>, i: int, j: int)
    requires
        0 <= i <= j <= v.len(),
        forall|m: int| i <= m < j ==> is_digit(#[trigger] v[m]),
    ensures
        digits_len(v, i) >= j - i,
    decreases j - i,
{
    if i < j {
        lemma_digits_len_at_ge(v, i + 1, j);
    }
}

/// The raw fields of one record as read, before interpretation.
struct RawParts {
    title: Vec<char>,
    desc: Vec<char>,
    imp: u64,
    due_s: Vec<char>,
    created_s: Vec<char>,
}

spec fn raw_view(p: RawParts) -> RawLeaf {
    RawLeaf {
        title: p.title@,
        desc: p.desc@,
        imp: p.imp as nat,
        due_s: p.due_s@,
        created_s: p.created_s@,
    }
}

/// A leaf the text form carries faithfully: well-formed, dates made of
/// date characters, description off the sentinel.
pub open spec fn good_leaf(l: LeafView) -> bool {
    leaf_wf(l) && leaf_plain(l) && leaf_sentinel_free(l)
}

/// Every leaf of the sequence is good.
pub open spec fn good_leafs(ss: Seq<LeafView>) -> bool {
    forall|k: int| 0 <= k < ss.len() ==> good_leaf(#[trigger] ss[k])
}

/// A task the text form carries faithfully.
pub open spec fn good_task(t: TaskView) -> bool {
    task_view_wf(t) && task_plain(t) && task_sentinel_free(t)
}

/// A store the text form carries faithfully.
pub open spec fn good_store(ts: Seq<TaskView>) -> bool {
    forall|k: int| 0 <= k < ts.len() ==> good_task(#[trigger] ts[k])
}

/// The raw fields a sequence of good leaves serializes to.
pub open spec fn raws_of(ss: Seq<LeafView>) -> Seq<RawLeaf> {
    ss.map_values(|l: LeafView| raw_of(l))
}

/// The raw fields a good task serializes to.
pub open spec fn rawtask_of(t: TaskView) -> RawTask {
    RawTask { head: raw_of(leaf_part(t)), subs: raws_of(t.subs) }
}

/// The raw fields a sequence of good tasks serializes to.
pub open spec fn rawtasks_of(ts: Seq<TaskView>) -> Seq<RawTask> {
    ts.map_values(|t: TaskView| rawtask_of(t))
}

/// The leaf values of a sequence of sub-tasks.
pub open spec fn leafs_of(ts: Seq<Task>) -> Seq<LeafView> {
    ts.map_values(|t: Task| leaf_of(t))
}

/// Reads the head of one record, as `p_head` says.
fn p_head_exec(v: &Vec<char>, i: usize) -> (r: Option<(RawParts, usize)>)
    requires
        i <= v@.len(),
    ensures
        r is None <==> p_head(v@, i as int) is None,
        r matches Some((p, j)) ==> p_head(v@, i as int) == Option::Some((raw_view(p), j as int))
            && i < j <= v@.len(),
{
    let i1 = match expect_lit(v, i, "{\"title\":\"") {
        Option::Some(x) => x,
        Option::None => {
            return Option::None;
        },
    };
    let (title, i2) = match scan_str_exec(v, i1) {
        Option::Some(x) => x,
        Option::None => {
            return Option::None;
        },
    };
    let i3 = match expect_lit(v, i2, ",\"description\":\"") {
        Option::Some(x) => x,
        Option::None => {
            return Option::None;
        },
    };
    let (desc, i4) = match scan_str_exec(v, i3) {
        Option::Some(x) => x,
        Option::None => {
            return Option::None;
        },
    };
    let i5 = match expect_lit(v, i4, ",\"importance\":") {
        Option::Some(x) => x,
        Option::None => {
            return Option::None;
        },
    };
    let (imp, i6) = match scan_num_exec(v, i5) {
        Option::Some(x) => x,
        Option::None => {
            return Option::None;
        },
    };
    let i7 = match expect_lit(v, i6, ",\"due_date\":\"") {
        Option::Some(x) => x,
        Option::None => {
            return Option::None;
        },
    };
    let (due_s, i8) = match scan_str_exec(v, i7) {
        Option::Some(x) => x,
        Option::None => {
            return Option::None;
        },
    };
    let i9 = match expect_lit(v, i8, ",\"date_created\":\"") {
        Option::Some(x) => x,
        Option::None => {
            return Option::None;
        },
    };
    let (created_s, i10) = match scan_str_exec(v, i9) {
        Option::Some(x) => x,
        Option::None => {
            return Option::None;
        },
    };
    let i11 = match expect_lit(v, i10, ",\"sub_tasks\":[") {
        Option::Some(x) => x,
        Option::None => {
            return Option::None;
        },
    };
    Option::Some((RawParts { title, desc, imp, due_s, created_s }, i11))
}

/// Interprets the raw fields of one record: the sentinel text turns
/// into a missing description or due date, the date texts are read
/// back as timestamps, and the field ranges are enforced.
fn leaf_from_raw(p: RawParts) -> (r: Option<Task>)
    ensures
        r matches Some(t) ==> t.wf() && t.sub_tasks@.len() == 0,
        forall|l: LeafView|
            good_leaf(l) && raw_view(p) == raw_of(l) ==> (r matches Some(t) && leaf_of(t) == l),
{
    proof {
        reveal_strlit("None");
    }
    if p.imp > 3 {
        return Option::None;
    }
    let title = chars_to_string(&p.title);
    let desc_s = chars_to_string(&p.desc);
    let due_str = chars_to_string(&p.due_s);
    let created_str = chars_to_string(&p.created_s);
    let desc_is_none = str_eq(desc_s.as_str(), "None");
    let description: Option<String> = if desc_is_none {
        Option::None
    } else {
        Option::Some(desc_s)
    };
    let due_is_none = str_eq(due_str.as_str(), "None");
    let due_date: Option<i64>;
    if due_is_none {
        due_date = Option::None;
    } else {
        let parsed = parse_ts(due_str.as_str());
        proof {
            assert forall|l: LeafView|
                good_leaf(l) && raw_view(p) == raw_of(l) implies (parsed matches Some(d) && 0 <= d
                <= TS_MAX) by {
                if l.due is Some {
                    let d0 = l.due->0;
                    assert(ts_in_range(d0));
                    assert(due_str@ == ts_text(d0));
                    assert(parsed == Option::Some(d0 as i64));
                } else {
                    assert(p.due_s@ == "None"@);
                    assert(false);
                }
            }
        }
        match parsed {
            Option::Some(d) => {
                if 0 <= d && d <= TS_MAX {
                    due_date = Option::Some(d);
                } else {
                    return Option::None;
                }
            },
            Option::None => {
                return Option::None;
            },
        }
    }
    let created: i64;
    let parsed_c = parse_ts(created_str.as_str());
    proof {
        assert forall|l: LeafView|
            good_leaf(l) && raw_view(p) == raw_of(l) implies (parsed_c matches Some(c) && 0 <= c
            <= TS_MAX) by {
            assert(ts_in_range(l.created));
            assert(created_str@ == ts_text(l.created));
            assert(parsed_c == Option::Some(l.created as i64));
        }
    }
    match parsed_c {
        Option::Some(c) => {
            if 0 <= c && c <= TS_MAX {
                created = c;
            } else {
                return Option::None;
            }
        },
        Option::None => {
            return Option::None;
        },
    }
    let t = Task::with_created(title, description, p.imp as u8, due_date, created);
    proof {
        assert(t@.subs.len() == t.sub_tasks@.map_values(|s: Task| leaf_of(s)).len());
        assert(t.sub_tasks@.len() == 0);
        assert forall|l: LeafView| good_leaf(l) && raw_view(p) == raw_of(l) implies leaf_of(t)
            == l by {
            lemma_plain_not_none_of(l);
        }
    }
    Option::Some(t)
}

/// A text of date characters is never the sentinel text.
proof fn lemma_plain_not_none(s: Seq<char>)
    requires
        plain_text(s),
    ensures
        s != "None"@,
{
    reveal_strlit("None");
    if s == "None"@ {
        assert(is_date_char(s[0]));
        assert(s[0] == 'N');
        assert(false);
    }
}

/// The date texts of a good leaf are never the sentinel text.
proof fn lemma_plain_not_none_of(l: LeafView)
    requires
        leaf_plain(l),
    ensures
        ts_text(l.created) != "None"@,
        l.due matches Some(d) ==> ts_text(d) != "None"@,
{
    lemma_plain_not_none(ts_text(l.created));
    if l.due is Some {
        lemma_plain_not_none(ts_text(l.due->0));
    }
}

/// Reads one whole sub-task record and interprets it.
fn p_leaf_exec(v: &Vec<char>, i: usize) -> (r: Option<(Task, usize)>)
    requires
        i <= v@.len(),
    ensures
        p_leaf(v@, i as int) is None ==> r is None,
        r matches Some((t, j)) ==> t.wf() && t.sub_tasks@.len() == 0 && i < j <= v@.len()
            && p_leaf(v@, i as int) is Some && (p_leaf(v@, i as int)->0).1 == j as int,
        forall|l: LeafView|
            good_leaf(l) && p_leaf(v@, i as int) is Some && (p_leaf(v@, i as int)->0).0
                == raw_of(l) ==> (r matches Some(q) && leaf_of(q.0) == l && q.1 as int == (p_leaf(
                v@,
                i as int,
            )->0).1),
{
    let (parts, j) = match p_head_exec(v, i) {
        Option::Some(x) => x,
        Option::None => {
            return Option::None;
        },
    };
    let j2 = match expect_lit(v, j, "]}") {
        Option::Some(x) => x,
        Option::None => {
            return Option::None;
        },
    };
    proof {
        reveal_strlit("]}");
        assert(p_leaf(v@, i as int) == Option::<(RawLeaf, int)>::Some(
            (raw_view(parts), j2 as int),
        ));
    }
    match leaf_from_raw(parts) {
        Option::Some(t) => {
            proof {
                assert forall|l: LeafView|
                    good_leaf(l) && (p_leaf(v@, i as int)->0).0 == raw_of(l) implies leaf_of(t)
                    == l by {
                    assert(raw_view(parts) == raw_of(l));
                }
            }
            Option::Some((t, j2))
        },
        Option::None => {
            proof {
                assert forall|l: LeafView|
                    good_leaf(l) && (p_leaf(v@, i as int)->0).0 == raw_of(l) implies false by {
                    assert(raw_view(parts) == raw_of(l));
                }
            }
            return Option::None;
        },
    }
}

/// A task assembled from its leaf fields and its sub-tasks.
fn with_subs(t: Task, subs: Vec<Task>) -> (r: Task)
    requires
        t.wf(),
        t.sub_tasks@.len() == 0,
        forall|k: int|
            0 <= k < subs@.len() ==> (#[trigger] subs@[k]).wf() && subs@[k].sub_tasks@.len() == 0,
    ensures
        r.wf(),
        leaf_part(r@) == leaf_of(t),
        r@.subs == leafs_of(subs@),
{
    let r = Task {
        title: t.title,
        description: t.description,
        importance: t.importance,
        due_date: t.due_date,
        date_created: t.date_created,
        sub_tasks: subs,
    };
    proof {
        assert(r@.subs =~= leafs_of(r.sub_tasks@));
        assert(leaf_part(r@) =~= leaf_of(t));
        assert forall|k: int| 0 <= k < r@.subs.len() implies leaf_wf(#[trigger] r@.subs[k]) by {
            assert(r@.subs[k] == leaf_of(r.sub_tasks@[k]));
            assert(r.sub_tasks@[k].wf());
        }
    }
    r
}

/// Reads the rest of a sub-task list, as `p_subs` says, interpreting
/// each record.
fn p_subs_exec(v: &Vec<char>, i: usize) -> (r: Option<(Vec<Task>, usize)>)
    requires
        i <= v@.len(),
    ensures
        p_subs(v@, i as int) is None ==> r is None,
        r matches Some((ts, j)) ==> i < j <= v@.len() && (forall|k: int|
            0 <= k < ts@.len() ==> (#[trigger] ts@[k]).wf() && ts@[k].sub_tasks@.len() == 0)
            && p_subs(v@, i as int) is Some && (p_subs(v@, i as int)->0).1 == j as int,
        forall|ss: Seq<LeafView>|
            good_leafs(ss) && p_subs(v@, i as int) is Some && (p_subs(v@, i as int)->0).0
                == raws_of(ss) ==> (r matches Some(q) && leafs_of(q.0@) == ss && q.1 as int == (
            p_subs(v@, i as int)->0).1),
{
    let ghost i0 = i as int;
    let mut out: Vec<Task> = Vec::new();
    let ghost mut raws: Seq<RawLeaf> = Seq::empty();
    let mut j: usize = i;
    proof {
        assert(raws + Seq::<RawLeaf>::empty() =~= raws);
    }
    loop
        invariant
            i <= j <= v@.len(),
            i0 == i as int,
            out@.len() == raws.len(),
            forall|k: int|
                0 <= k < out@.len() ==> (#[trigger] out@[k]).wf() && out@[k].sub_tasks@.len()
                    == 0,
            forall|k: int, l: LeafView|
                #![trigger raws[k], raw_of(l)]
                0 <= k < raws.len() && good_leaf(l) && raws[k] == raw_of(l) ==> leaf_of(out@[k])
                    == l,
            p_subs(v@, i0) == (match p_subs(v@, j as int) {
                Option::Some((rest, e)) => Option::<(Seq<RawLeaf>, int)>::Some((raws + rest, e)),
                Option::None => Option::None,
            }),
        decreases v@.len() - j,
    {
        if j >= v.len() {
            return Option::None;
        }
        if v[j] == ']' {
            proof {
                assert(p_subs(v@, j as int) == Option::<(Seq<RawLeaf>, int)>::Some(
                    (Seq::empty(), j as int + 1),
                ));
                assert(raws + Seq::<RawLeaf>::empty() =~= raws);
            }
            let jr = j + 1;
            proof {
                assert forall|ss: Seq<LeafView>|
                    good_leafs(ss) && p_subs(v@, i0) is Some && (p_subs(v@, i0)->0).0 == raws_of(
                        ss,
                    ) implies leafs_of(out@) == ss && jr as int == (p_subs(v@, i0)->0).1 by {
                    assert(raws == raws_of(ss));
                    assert(raws.len() == ss.len());
                    assert forall|k: int| 0 <= k < ss.len() implies leaf_of(#[trigger] out@[k])
                        == ss[k] by {
                        assert(raws[k] == raws_of(ss)[k]);
                        assert(raws[k] == raw_of(ss[k]));
                        assert(good_leaf(ss[k]));
                    }
                    assert(leafs_of(out@) =~= ss);
                }
            }
            return Option::Some((out, jr));
        }
        let (t, j2) = match p_leaf_exec(v, j) {
            Option::Some(x) => x,
            Option::None => {
                proof {
                    assert forall|ss: Seq<LeafView>|
                        good_leafs(ss) && p_subs(v@, i0) is Some && (p_subs(v@, i0)->0).0
                            == raws_of(ss) implies false by {
                        assert(p_subs(v@, j as int) is Some);
                        assert(p_leaf(v@, j as int) is Some);
                        lemma_subs_head_raw(v@, j as int, raws, ss);
                        let l0 = ss[raws.len() as int];
                        assert(good_leaf(l0) && (p_leaf(v@, j as int)->0).0 == raw_of(l0));
                    }
                }
                return Option::None;
            },
        };
        let ghost raw0 = (p_leaf(v@, j as int)->0).0;
        proof {
            assert(p_leaf(v@, j as int) == Option::<(RawLeaf, int)>::Some((raw0, j2 as int)));
            assert(j < j2);
        }
        if j2 >= v.len() {
            return Option::None;
        }
        let c = v[j2];
        let ghost prev = raws;
        if c == ',' {
            out.push(t);
            proof {
                raws = prev.push(raw0);
                assert(prev =~= raws.drop_last());
                assert forall|rest: Seq<RawLeaf>, e: int|
                    p_subs(v@, j2 as int + 1) == Option::<(Seq<RawLeaf>, int)>::Some(
                        (rest, e),
                    ) implies prev + (seq![raw0] + rest) =~= raws + rest by {}
                assert forall|k: int, l: LeafView|
                    #![trigger raws[k], raw_of(l)]
                    0 <= k < raws.len() && good_leaf(l) && raws[k] == raw_of(l) implies leaf_of(
                        out@[k],
                    ) == l by {
                    if k < raws.len() - 1 {
                        assert(raws[k] == prev[k]);
                        assert(out@[k] == out@.drop_last()[k]);
                    } else {
                        assert(out@[k] == t);
                        assert((p_leaf(v@, j as int)->0).0 == raw_of(l));
                    }
                }
            }
            j = j2 + 1;
        } else if c == ']' {
            out.push(t);
            let jr = j2 + 1;
            proof {
                raws = prev.push(raw0);
                assert(prev =~= raws.drop_last());
                assert(p_subs(v@, j as int) == Option::<(Seq<RawLeaf>, int)>::Some(
                    (seq![raw0], j2 as int + 1),
                ));
                assert(prev + seq![raw0] =~= raws);
                assert forall|k: int, l: LeafView|
                    #![trigger raws[k], raw_of(l)]
                    0 <= k < raws.len() && good_leaf(l) && raws[k] == raw_of(l) implies leaf_of(
                        out@[k],
                    ) == l by {
                    if k < raws.len() - 1 {
                        assert(raws[k] == prev[k]);
                        assert(out@[k] == out@.drop_last()[k]);
                    } else {
                        assert(out@[k] == t);
                        assert((p_leaf(v@, j as int)->0).0 == raw_of(l));
                    }
                }
                assert forall|ss: Seq<LeafView>|
                    good_leafs(ss) && p_subs(v@, i0) is Some && (p_subs(v@, i0)->0).0 == raws_of(
                        ss,
                    ) implies leafs_of(out@) == ss && jr as int == (p_subs(v@, i0)->0).1 by {
                    assert(raws == raws_of(ss));
                    assert(raws.len() == ss.len());
                    assert forall|k: int| 0 <= k < ss.len() implies leaf_of(#[trigger] out@[k])
                        == ss[k] by {
                        assert(raws[k] == raws_of(ss)[k]);
                        assert(raws[k] == raw_of(ss[k]));
                        assert(good_leaf(ss[k]));
                    }
                    assert(leafs_of(out@) =~= ss);
                }
            }
            return Option::Some((out, jr));
        } else {
            return Option::None;
        }
    }
}

/// When a list position must parse as a record: if the whole list
/// parse succeeded on the raw fields of good leaves, the element
/// parser cannot have failed to interpret its record.
proof fn lemma_subs_head_raw(v: Seq<char>, j: int, raws: Seq<RawLeaf>, ss: Seq<LeafView>)
    requires
        good_leafs(ss),
        0 <= j < v.len(),
        v[j] != ']',
        p_leaf(v, j) is Some,
        p_subs(v, j) is Some,
        raws + (p_subs(v, j)->0).0 == raws_of(ss),
    ensures
        raws.len() < ss.len() && (p_leaf(v, j)->0).0 == raw_of(ss[raws.len() as int]) && good_leaf(
            ss[raws.len() as int],
        ),
{
    let rest = (p_subs(v, j)->0).0;
    let r0 = (p_leaf(v, j)->0).0;
    assert(rest.len() >= 1);
    assert(rest[0] == r0);
    assert(raws_of(ss).len() == ss.len());
    assert(raws.len() < ss.len());
    assert(raws_of(ss)[raws.len() as int] == r0);
    assert(raw_of(ss[raws.len() as int]) == r0);
}

/// Reads one whole task record and interprets it.
fn p_task_exec(v: &Vec<char>, i: usize) -> (r: Option<(Task, usize)>)
    requires
        i <= v@.len(),
    ensures
        p_task(v@, i as int) is None ==> r is None,
        r matches Some((t, j)) ==> t.wf() && i < j <= v@.len() && p_task(v@, i as int) is Some
            && (p_task(v@, i as int)->0).1 == j as int,
        forall|tv: TaskView|
            good_task(tv) && p_task(v@, i as int) is Some && (p_task(v@, i as int)->0).0
                == rawtask_of(tv) ==> (r matches Some(q) && q.0@ == tv && q.1 as int == (p_task(
                v@,
                i as int,
            )->0).1),
{
    let (parts, j) = match p_head_exec(v, i) {
        Option::Some(x) => x,
        Option::None => {
            return Option::None;
        },
    };
    let (subs, e) = match p_subs_exec(v, j) {
        Option::Some(x) => x,
        Option::None => {
            proof {
                assert forall|tv: TaskView|
                    good_task(tv) && p_task(v@, i as int) is Some && (p_task(v@, i as int)->0).0
                        == rawtask_of(tv) implies false by {
                    assert(good_leafs(tv.subs));
                    assert(p_subs(v@, j as int) is Some);
                    assert((p_subs(v@, j as int)->0).0 == raws_of(tv.subs));
                }
            }
            return Option::None;
        },
    };
    if e >= v.len() {
        return Option::None;
    }
    let c = v[e];
    if c != '}' {
        return Option::None;
    }
    let er = e + 1;
    match leaf_from_raw(parts) {
        Option::Some(t0) => {
            let task = with_subs(t0, subs);
            proof {
                assert forall|tv: TaskView|
                    good_task(tv) && p_task(v@, i as int) is Some && (p_task(v@, i as int)->0).0
                        == rawtask_of(tv) implies task@ == tv && er as int == (p_task(
                        v@,
                        i as int,
                    )->0).1 by {
                    assert(raw_view(parts) == raw_of(leaf_part(tv)));
                    assert(leaf_wf(leaf_part(tv)) && leaf_plain(leaf_part(tv))
                        && leaf_sentinel_free(leaf_part(tv)));
                    assert(leaf_of(t0) == leaf_part(tv));
                    assert(good_leafs(tv.subs));
                    assert((p_subs(v@, j as int)->0).0 == raws_of(tv.subs));
                    assert(leafs_of(subs@) == tv.subs);
                    assert(task@ =~= tv);
                }
            }
            Option::Some((task, er))
        },
        Option::None => {
            proof {
                assert forall|tv: TaskView|
                    good_task(tv) && p_task(v@, i as int) is Some && (p_task(v@, i as int)->0).0
                        == rawtask_of(tv) implies false by {
                    assert(raw_view(parts) == raw_of(leaf_part(tv)));
                    assert(leaf_wf(leaf_part(tv)) && leaf_plain(leaf_part(tv))
                        && leaf_sentinel_free(leaf_part(tv)));
                }
            }
            return Option::None;
        },
    }
}

/// When a top-level list position must parse as a record: the
/// analogue of `lemma_subs_head_raw` for tasks.
proof fn lemma_tasks_head_raw(v: Seq<char>, j: int, raws: Seq<RawTask>, ts: Seq<TaskView>)
    requires
        good_store(ts),
        0 <= j < v.len(),
        v[j] != ']',
        p_task(v, j) is Some,
        p_tasks(v, j) is Some,
        raws + (p_tasks(v, j)->0).0 == rawtasks_of(ts),
    ensures
        raws.len() < ts.len() && (p_task(v, j)->0).0 == rawtask_of(ts[raws.len() as int])
            && good_task(ts[raws.len() as int]),
{
    let rest = (p_tasks(v, j)->0).0;
    let r0 = (p_task(v, j)->0).0;
    assert(rest.len() >= 1);
    assert(rest[0] == r0);
    assert(rawtasks_of(ts).len() == ts.len());
    assert(raws.len() < ts.len());
    assert(rawtasks_of(ts)[raws.len() as int] == r0);
    assert(rawtask_of(ts[raws.len() as int]) == r0);
}

/// Reads the rest of the top-level task list, as `p_tasks` says,
/// interpreting each record.
fn p_tasks_exec(v: &Vec<char>, i: usize) -> (r: Option<(Vec<Task>, usize)>)
    requires
        i <= v@.len(),
    ensures
        p_tasks(v@, i as int) is None ==> r is None,
        r matches Some((ts, j)) ==> i < j <= v@.len() && (forall|k: int|
            0 <= k < ts@.len() ==> (#[trigger] ts@[k]).wf()) && p_tasks(v@, i as int) is Some && (
        p_tasks(v@, i as int)->0).1 == j as int,
        forall|ts: Seq<TaskView>|
            good_store(ts) && p_tasks(v@, i as int) is Some && (p_tasks(v@, i as int)->0).0
                == rawtasks_of(ts) ==> (r matches Some(q) && views_of(q.0@) == ts && q.1 as int
                == (p_tasks(v@, i as int)->0).1),
{
    let ghost i0 = i as int;
    let mut out: Vec<Task> = Vec::new();
    let ghost mut raws: Seq<RawTask> = Seq::empty();
    let mut j: usize = i;
    proof {
        assert(raws + Seq::<RawTask>::empty() =~= raws);
    }
    loop
        invariant
            i <= j <= v@.len(),
            i0 == i as int,
            out@.len() == raws.len(),
            forall|k: int| 0 <= k < out@.len() ==> (#[trigger] out@[k]).wf(),
            forall|k: int, tv: TaskView|
                #![trigger raws[k], rawtask_of(tv)]
                0 <= k < raws.len() && good_task(tv) && raws[k] == rawtask_of(tv) ==> out@[k]@
                    == tv,
            p_tasks(v@, i0) == (match p_tasks(v@, j as int) {
                Option::Some((rest, e)) => Option::<(Seq<RawTask>, int)>::Some((raws + rest, e)),
                Option::None => Option::None,
            }),
        decreases v@.len() - j,
    {
        if j >= v.len() {
            return Option::None;
        }
        if v[j] == ']' {
            proof {
                assert(p_tasks(v@, j as int) == Option::<(Seq<RawTask>, int)>::Some(
                    (Seq::empty(), j as int + 1),
                ));
                assert(raws + Seq::<RawTask>::empty() =~= raws);
            }
            let jr = j + 1;
            proof {
                assert forall|ts: Seq<TaskView>|
                    good_store(ts) && p_tasks(v@, i0) is Some && (p_tasks(v@, i0)->0).0
                        == rawtasks_of(ts) implies views_of(out@) == ts && jr as int == (p_tasks(
                        v@,
                        i0,
                    )->0).1 by {
                    assert(raws == rawtasks_of(ts));
                    assert(raws.len() == ts.len());
                    assert forall|k: int| 0 <= k < ts.len() implies (#[trigger] out@[k])@
                        == ts[k] by {
                        assert(raws[k] == rawtasks_of(ts)[k]);
                        assert(raws[k] == rawtask_of(ts[k]));
                        assert(good_task(ts[k]));
                    }
                    assert(views_of(out@) =~= ts);
                }
            }
            return Option::Some((out, jr));
        }
        let (t, j2) = match p_task_exec(v, j) {
            Option::Some(x) => x,
            Option::None => {
                proof {
                    assert forall|ts: Seq<TaskView>|
                        good_store(ts) && p_tasks(v@, i0) is Some && (p_tasks(v@, i0)->0).0
                            == rawtasks_of(ts) implies false by {
                        assert(p_tasks(v@, j as int) is Some);
                        assert(p_task(v@, j as int) is Some);
                        lemma_tasks_head_raw(v@, j as int, raws, ts);
                        let t0 = ts[raws.len() as int];
                        assert(good_task(t0) && (p_task(v@, j as int)->0).0 == rawtask_of(t0));
                    }
                }
                return Option::None;
            },
        };
        let ghost raw0 = (p_task(v@, j as int)->0).0;
        proof {
            assert(p_task(v@, j as int) == Option::<(RawTask, int)>::Some((raw0, j2 as int)));
            assert(j < j2);
        }
        if j2 >= v.len() {
            return Option::None;
        }
        let c = v[j2];
        let ghost prev = raws;
        if c == ',' {
            out.push(t);
            proof {
                raws = prev.push(raw0);
                assert(prev =~= raws.drop_last());
                assert forall|rest: Seq<RawTask>, e: int|
                    p_tasks(v@, j2 as int + 1) == Option::<(Seq<RawTask>, int)>::Some(
                        (rest, e),
                    ) implies prev + (seq![raw0] + rest) =~= raws + rest by {}
                assert forall|k: int, tv: TaskView|
                    #![trigger raws[k], rawtask_of(tv)]
                    0 <= k < raws.len() && good_task(tv) && raws[k] == rawtask_of(tv) implies out@[
                    k]@ == tv by {
                    if k < raws.len() - 1 {
                        assert(raws[k] == prev[k]);
                        assert(out@[k] == out@.drop_last()[k]);
                    } else {
                        assert(out@[k] == t);
                        assert((p_task(v@, j as int)->0).0 == rawtask_of(tv));
                    }
                }
            }
            j = j2 + 1;
        } else if c == ']' {
            out.push(t);
            let jr = j2 + 1;
            proof {
                raws = prev.push(raw0);
                assert(prev =~= raws.drop_last());
                assert(p_tasks(v@, j as int) == Option::<(Seq<RawTask>, int)>::Some(
                    (seq![raw0], j2 as int + 1),
                ));
                assert(prev + seq![raw0] =~= raws);
                assert forall|k: int, tv: TaskView|
                    #![trigger raws[k], rawtask_of(tv)]
                    0 <= k < raws.len() && good_task(tv) && raws[k] == rawtask_of(tv) implies out@[
                    k]@ == tv by {
                    if k < raws.len() - 1 {
                        assert(raws[k] == prev[k]);
                        assert(out@[k] == out@.drop_last()[k]);
                    } else {
                        assert(out@[k] == t);
                        assert((p_task(v@, j as int)->0).0 == rawtask_of(tv));
                    }
                }
                assert forall|ts: Seq<TaskView>|
                    good_store(ts) && p_tasks(v@, i0) is Some && (p_tasks(v@, i0)->0).0
                        == rawtasks_of(ts) implies views_of(out@) == ts && jr as int == (p_tasks(
                        v@,
                        i0,
                    )->0).1 by {
                    assert(raws == rawtasks_of(ts));
                    assert(raws.len() == ts.len());
                    assert forall|k: int| 0 <= k < ts.len() implies (#[trigger] out@[k])@
                        == ts[k] by {
                        assert(raws[k] == rawtasks_of(ts)[k]);
                        assert(raws[k] == rawtask_of(ts[k]));
                        assert(good_task(ts[k]));
                    }
                    assert(views_of(out@) =~= ts);
                }
            }
            return Option::Some((out, jr));
        } else {
            return Option::None;
        }
    }
}

// ---------------------------------------------------------------------
// Completeness: the parser reads back exactly what the text form says.
// ---------------------------------------------------------------------

/// One character of a matched literal.
proof fn lemma_lit_char(v: Seq<char>, i: int, lit: Seq<char>, k: int)
    requires
        lit_at(v, i, lit),
        0 <= k < lit.len(),
    ensures
        v[i + k] == lit[k],
{
    assert(v.subrange(i, i + lit.len() as int)[k] == v[i + k]);
}

/// Splitting a literal match over a concatenation.
proof fn lemma_lit_split(v: Seq<char>, i: int, a: Seq<char>, b: Seq<char>)
    requires
        lit_at(v, i, a + b),
    ensures
        lit_at(v, i, a),
        lit_at(v, i + a.len(), b),
{
    let w = a + b;
    assert(v.subrange(i, i + w.len() as int) == w);
    assert forall|p: int| i <= p < i + w.len() implies v[p] == w[p - i] by {
        assert(v.subrange(i, i + w.len() as int)[p - i] == v[p]);
    }
    assert(v.subrange(i, i + a.len() as int) =~= a);
    assert(v.subrange(i + a.len(), i + a.len() + b.len()) =~= b);
}

/// A scan finds exactly the escaped text and stops at the quote after
/// it.
proof fn lemma_scan_str_complete(v: Seq<char>, i: int, x: Seq<char>)
    requires
        0 <= i,
        i + esc(x).len() + 1 <= v.len(),
        v.subrange(i, i + esc(x).len() as int) == esc(x),
        v[i + esc(x).len()] == '"',
    ensures
        scan_str(v, i) == Option::Some((x, i + esc(x).len() + 1)),
    decreases x.len(),
{
    assert forall|p: int| i <= p < i + esc(x).len() implies v[p] == esc(x)[p - i] by {
        assert(v.subrange(i, i + esc(x).len() as int)[p - i] == v[p]);
    }
    if x.len() == 0 {
        assert(esc(x) =~= Seq::<char>::empty());
        assert(v[i] == '"');
    } else {
        let c = x[0];
        let xr = x.drop_first();
        assert(esc(x) == esc_char(c) + esc(xr));
        assert(esc(x).len() == esc_char(c).len() + esc(xr).len());
        if is_esc_special(c) {
            assert(esc_char(c).len() == 2);
            assert(v[i] == esc_char(c)[0]);
            assert(v[i + 1] == esc_char(c)[1]);
            assert(esc_char(c)[0] == '\\');
            assert(unesc_ok(esc_char(c)[1]));
            assert(unesc(esc_char(c)[1]) == c);
            assert(v.subrange(i + 2, i + 2 + esc(xr).len() as int) =~= esc(xr));
            assert(v[i + 2 + esc(xr).len()] == '"');
            lemma_scan_str_complete(v, i + 2, xr);
            assert(v[i] != '"');
            assert(scan_str(v, i) == Option::Some(
                (seq![unesc(v[i + 1])] + xr, i + esc(x).len() + 1),
            ));
            assert(seq![c] + xr =~= x);
        } else {
            assert(esc_char(c) =~= seq![c]);
            assert(v[i] == c);
            assert(c != '"' && c != '\\');
            assert(v.subrange(i + 1, i + 1 + esc(xr).len() as int) =~= esc(xr));
            assert(v[i + 1 + esc(xr).len()] == '"');
            lemma_scan_str_complete(v, i + 1, xr);
            assert(scan_str(v, i) == Option::Some((seq![c] + xr, i + esc(x).len() + 1)));
            assert(seq![c] + xr =~= x);
        }
    }
}

/// A number scan finds exactly the numeral and stops at the first
/// non-digit after it.
proof fn lemma_scan_num_complete(v: Seq<char>, i: int, m: nat)
    requires
        0 <= i,
        m <= u64::MAX,
        i + dec_digits(m).len() <= v.len(),
        v.subrange(i, i + dec_digits(m).len() as int) == dec_digits(m),
        i + dec_digits(m).len() == v.len() || !is_digit(v[i + dec_digits(m).len()]),
    ensures
        scan_num(v, i) == Option::Some((m, i + dec_digits(m).len())),
{
    let d = dec_digits(m);
    lemma_dec_digits_are_digits(m);
    assert forall|p: int| i <= p < i + d.len() implies is_digit(#[trigger] v[p]) by {
        assert(v.subrange(i, i + d.len() as int)[p - i] == v[p]);
        assert(v[p] == d[p - i]);
    }
    lemma_digits_len_at(v, i, i + d.len());
    crate::text::lemma_dec_val_of_dec_digits(m);
}

/// The head parser reads back exactly the raw fields of a good leaf.
proof fn lemma_head_complete(v: Seq<char>, i: int, l: LeafView)
    requires
        good_leaf(l),
        lit_at(v, i, head_text(l)),
        i + head_text(l).len() < v.len(),
    ensures
        p_head(v, i) == Option::Some((raw_of(l), i + head_text(l).len())),
{
    reveal_strlit("{\"title\":\"");
    reveal_strlit("\",\"description\":\"");
    reveal_strlit(",\"description\":\"");
    reveal_strlit("\",\"importance\":");
    reveal_strlit(",\"importance\":");
    reveal_strlit(",\"due_date\":\"");
    reveal_strlit("\",\"date_created\":\"");
    reveal_strlit(",\"date_created\":\"");
    reveal_strlit("\",\"sub_tasks\":[");
    reveal_strlit(",\"sub_tasks\":[");
    let l1 = "{\"title\":\""@;
    let e1 = esc(l.title);
    let l2 = "\",\"description\":\""@;
    let e2 = esc(desc_inner(l.description));
    let l3 = "\",\"importance\":"@;
    let d = dec_digits(l.importance as nat);
    let l4 = ",\"due_date\":\""@;
    let e4 = esc(due_inner(l.due));
    let l5 = "\",\"date_created\":\""@;
    let e5 = esc(ts_text(l.created));
    let l6 = "\",\"sub_tasks\":["@;
    assert(head_text(l) == l1 + e1 + l2 + e2 + l3 + d + l4 + e4 + l5 + e5 + l6);
    lemma_lit_split(v, i, l1 + e1 + l2 + e2 + l3 + d + l4 + e4 + l5 + e5, l6);
    lemma_lit_split(v, i, l1 + e1 + l2 + e2 + l3 + d + l4 + e4 + l5, e5);
    lemma_lit_split(v, i, l1 + e1 + l2 + e2 + l3 + d + l4 + e4, l5);
    lemma_lit_split(v, i, l1 + e1 + l2 + e2 + l3 + d + l4, e4);
    lemma_lit_split(v, i, l1 + e1 + l2 + e2 + l3 + d, l4);
    lemma_lit_split(v, i, l1 + e1 + l2 + e2 + l3, d);
    lemma_lit_split(v, i, l1 + e1 + l2 + e2, l3);
    lemma_lit_split(v, i, l1 + e1 + l2, e2);
    lemma_lit_split(v, i, l1 + e1, l2);
    lemma_lit_split(v, i, l1, e1);
    let p1 = i + l1.len();
    let p2 = p1 + e1.len();
    let p3 = p2 + l2.len();
    let p4 = p3 + e2.len();
    let p5 = p4 + l3.len();
    let p6 = p5 + d.len();
    let p7 = p6 + l4.len();
    let p8 = p7 + e4.len();
    let p9 = p8 + l5.len();
    let p10 = p9 + e5.len();
    let p11 = p10 + l6.len();
    // title: the escaped text runs to the quote that opens the next
    // literal
    assert(v[p2] == l2[0] && l2[0] == '"');
    lemma_scan_str_complete(v, p1, l.title);
    // the rest of that literal
    assert(l2 =~= seq!['"'] + ",\"description\":\""@);
    lemma_lit_split(v, p2, seq!['"'], ",\"description\":\""@);
    // description
    assert(v[p4] == l3[0] && l3[0] == '"');
    lemma_scan_str_complete(v, p3, desc_inner(l.description));
    assert(l3 =~= seq!['"'] + ",\"importance\":"@);
    lemma_lit_split(v, p4, seq!['"'], ",\"importance\":"@);
    // importance: a digit run ended by the comma of the next literal
    assert(v[p6] == l4[0] && l4[0] == ',');
    assert(!is_digit(','));
    lemma_scan_num_complete(v, p5, l.importance as nat);
    // due date
    assert(v[p8] == l5[0] && l5[0] == '"');
    lemma_scan_str_complete(v, p7, due_inner(l.due));
    assert(l5 =~= seq!['"'] + ",\"date_created\":\""@);
    lemma_lit_split(v, p8, seq!['"'], ",\"date_created\":\""@);
    // creation date
    assert(v[p10] == l6[0] && l6[0] == '"');
    lemma_scan_str_complete(v, p9, ts_text(l.created));
    assert(l6 =~= seq!['"'] + ",\"sub_tasks\":["@);
    lemma_lit_split(v, p10, seq!['"'], ",\"sub_tasks\":["@);
    assert(p_head(v, i) == Option::Some((raw_of(l), p11)));
}

/// The leaf parser reads back exactly one good sub-task record.
proof fn lemma_leaf_complete(v: Seq<char>, i: int, l: LeafView)
    requires
        good_leaf(l),
        lit_at(v, i, leaf_text(l)),
        i + leaf_text(l).len() <= v.len(),
    ensures
        p_leaf(v, i) == Option::Some((raw_of(l), i + leaf_text(l).len())),
        leaf_text(l).len() > 0,
{
    reveal_strlit("]}");
    lemma_lit_split(v, i, head_text(l), "]}"@);
    assert(i + head_text(l).len() < v.len());
    lemma_head_complete(v, i, l);
}

/// The sub-task list parser reads back exactly a list of good leaves
/// followed by its closing bracket.
proof fn lemma_subs_complete(v: Seq<char>, i: int, ss: Seq<LeafView>)
    requires
        good_leafs(ss),
        lit_at(v, i, subs_text(ss) + "]"@),
    ensures
        p_subs(v, i) == Option::Some((raws_of(ss), i + subs_text(ss).len() + 1)),
    decreases ss.len(),
{
    reveal_strlit("]");
    reveal_strlit(",");
    reveal_strlit("{\"title\":\"");
    let full = subs_text(ss) + "]"@;
    if ss.len() == 0 {
        assert(subs_text(ss) =~= Seq::<char>::empty());
        lemma_lit_char(v, i, full, 0);
        assert(v[i] == ']');
        assert(raws_of(ss) =~= Seq::<RawLeaf>::empty());
    } else {
        let l0 = ss[0];
        let lt = leaf_text(l0);
        assert(good_leaf(l0));
        assert(lt.len() >= 1) by {
            assert(lt == head_text(l0) + "]}"@);
        }
        if ss.len() == 1 {
            assert(subs_text(ss) == lt);
            lemma_lit_split(v, i, lt, "]"@);
            lemma_leaf_complete(v, i, l0);
            let j = i + lt.len();
            lemma_lit_char(v, j, "]"@, 0);
            assert(v[j] == ']');
            lemma_lit_char(v, i, lt, 0);
            assert(v[i] == lt[0]);
            assert(lt[0] == head_text(l0)[0]);
            assert(head_text(l0)[0] == '{');
            assert(v[i] != ']');
            assert(p_subs(v, i) == Option::Some((seq![raw_of(l0)], j + 1)));
            assert(raws_of(ss) =~= seq![raw_of(l0)]);
        } else {
            let rest = ss.drop_first();
            assert(subs_text(ss) == lt + ","@ + subs_text(rest));
            lemma_lit_split(v, i, lt + ","@ + subs_text(rest), "]"@);
            lemma_lit_split(v, i, lt + ","@, subs_text(rest));
            lemma_lit_split(v, i, lt, ","@);
            lemma_leaf_complete(v, i, l0);
            let j = i + lt.len();
            lemma_lit_char(v, j, ","@, 0);
            assert(v[j] == ',');
            lemma_lit_char(v, i, lt, 0);
            assert(v[i] == lt[0]);
            assert(lt[0] == head_text(l0)[0]);
            assert(head_text(l0)[0] == '{');
            assert(v[i] != ']');
            assert(v[j] != ']');
            let p = j + 1;
            assert(v.subrange(p, p + subs_text(rest).len() as int) == subs_text(rest));
            assert(lit_at(v, p, subs_text(rest) + "]"@)) by {
                assert(subs_text(ss).len() == lt.len() + 1 + subs_text(rest).len());
                lemma_lit_char(v, i, full, full.len() - 1);
                assert(v[i + (full.len() - 1)] == ']');
                assert(v.subrange(p, p + (subs_text(rest) + "]"@).len() as int) =~= subs_text(
                    rest,
                ) + "]"@) by {
                    assert forall|k: int|
                        0 <= k < subs_text(rest).len() + 1 implies v[p + k] == (subs_text(rest)
                        + "]"@)[k] by {
                        if k < subs_text(rest).len() {
                            assert(v.subrange(p, p + subs_text(rest).len() as int)[k] == v[p
                                + k]);
                        } else {
                            assert(p + k == i + (full.len() - 1));
                        }
                    }
                }
            }
            lemma_subs_complete(v, p, rest);
            assert(p_subs(v, i) == Option::Some(
                (seq![raw_of(l0)] + raws_of(rest), i + subs_text(ss).len() + 1),
            ));
            assert(seq![raw_of(l0)] + raws_of(rest) =~= raws_of(ss));
        }
    }
}

/// The task parser reads back exactly one good task record.
proof fn lemma_task_complete(v: Seq<char>, i: int, t: TaskView)
    requires
        good_task(t),
        lit_at(v, i, task_text(t)),
    ensures
        p_task(v, i) == Option::Some((rawtask_of(t), i + task_text(t).len())),
        task_text(t).len() > 0,
{
    reveal_strlit("]}");
    reveal_strlit("]");
    reveal_strlit("{\"title\":\"");
    let ht = head_text(leaf_part(t));
    let st = subs_text(t.subs);
    assert(task_text(t) == ht + st + "]}"@);
    lemma_lit_split(v, i, ht + st, "]}"@);
    lemma_lit_split(v, i, ht, st);
    assert(i + ht.len() < v.len());
    assert(good_leaf(leaf_part(t))) by {
        assert(leaf_wf(leaf_part(t)));
    }
    lemma_head_complete(v, i, leaf_part(t));
    let j = i + ht.len();
    let e = j + st.len();
    lemma_lit_char(v, e, "]}"@, 0);
    assert(v[e + 0] == ']');
    assert(lit_at(v, j, st + "]"@)) by {
        assert forall|k: int| 0 <= k < st.len() + 1 implies v[j + k] == (st + "]"@)[k] by {
            if k < st.len() {
                assert(v.subrange(j, j + st.len() as int)[k] == v[j + k]);
            } else {
                assert(j + k == e + 0);
            }
        }
        assert(v.subrange(j, j + (st + "]"@).len() as int) =~= st + "]"@);
    }
    assert(good_leafs(t.subs)) by {
        assert forall|k: int| 0 <= k < t.subs.len() implies good_leaf(#[trigger] t.subs[k]) by {
            assert(leaf_wf(t.subs[k]));
            assert(leaf_plain(t.subs[k]));
            assert(leaf_sentinel_free(t.subs[k]));
        }
    }
    lemma_subs_complete(v, j, t.subs);
    lemma_lit_char(v, e, "]}"@, 1);
    assert(v[e + 1] == '}');
    assert(p_task(v, i) == Option::Some((rawtask_of(t), e + 2)));
}

/// The top-level list parser reads back exactly a list of good tasks
/// followed by its closing bracket.
#[verifier::rlimit(60)]
proof fn lemma_tasks_complete(v: Seq<char>, i: int, ts: Seq<TaskView>)
    requires
        good_store(ts),
        lit_at(v, i, tasks_text(ts) + "]"@),
    ensures
        p_tasks(v, i) == Option::Some((rawtasks_of(ts), i + tasks_text(ts).len() + 1)),
    decreases ts.len(),
{
    reveal_strlit("]");
    reveal_strlit(",");
    reveal_strlit("{\"title\":\"");
    let full = tasks_text(ts) + "]"@;
    if ts.len() == 0 {
        assert(tasks_text(ts) =~= Seq::<char>::empty());
        lemma_lit_char(v, i, full, 0);
        assert(v[i] == ']');
        assert(rawtasks_of(ts) =~= Seq::<RawTask>::empty());
    } else {
        let t0 = ts[0];
        let tt = task_text(t0);
        assert(good_task(t0));
        assert(tt.len() >= 1) by {
            assert(tt == head_text(leaf_part(t0)) + subs_text(t0.subs) + "]}"@);
        }
        if ts.len() == 1 {
            assert(tasks_text(ts) == tt);
            lemma_lit_split(v, i, tt, "]"@);
            lemma_task_complete(v, i, t0);
            let j = i + tt.len();
            lemma_lit_char(v, j, "]"@, 0);
            assert(v[j] == ']');
            lemma_lit_char(v, i, tt, 0);
            assert(v[i] == tt[0]);
            assert(tt[0] == head_text(leaf_part(t0))[0]);
            assert(head_text(leaf_part(t0))[0] == '{');
            assert(v[i] != ']');
            assert(p_tasks(v, i) == Option::Some((seq![rawtask_of(t0)], j + 1)));
            assert(rawtasks_of(ts) =~= seq![rawtask_of(t0)]);
        } else {
            let rest = ts.drop_first();
            assert(tasks_text(ts) == tt + ","@ + tasks_text(rest));
            lemma_lit_split(v, i, tt + ","@ + tasks_text(rest), "]"@);
            lemma_lit_split(v, i, tt + ","@, tasks_text(rest));
            lemma_lit_split(v, i, tt, ","@);
            lemma_task_complete(v, i, t0);
            let j = i + tt.len();
            lemma_lit_char(v, j, ","@, 0);
            assert(v[j] == ',');
            lemma_lit_char(v, i, tt, 0);
            assert(v[i] == tt[0]);
            assert(tt[0] == head_text(leaf_part(t0))[0]);
            assert(head_text(leaf_part(t0))[0] == '{');
            assert(v[i] != ']');
            assert(v[j] != ']');
            let p = j + 1;
            assert(lit_at(v, p, tasks_text(rest) + "]"@)) by {
                assert(tasks_text(ts).len() == tt.len() + 1 + tasks_text(rest).len());
                lemma_lit_char(v, i, full, full.len() - 1);
                assert(v[i + (full.len() - 1)] == ']');
                assert forall|k: int|
                    0 <= k < tasks_text(rest).len() + 1 implies v[p + k] == (tasks_text(rest)
                    + "]"@)[k] by {
                    if k < tasks_text(rest).len() {
                        assert(v.subrange(p, p + tasks_text(rest).len() as int)[k] == v[p + k]);
                    } else {
                        assert(p + k == i + (full.len() - 1));
                    }
                }
                assert(v.subrange(p, p + (tasks_text(rest) + "]"@).len() as int) =~= tasks_text(
                    rest,
                ) + "]"@);
            }
            lemma_tasks_complete(v, p, rest);
            assert(p_tasks(v, i) == Option::Some(
                (seq![rawtask_of(t0)] + rawtasks_of(rest), i + tasks_text(ts).len() + 1),
            ));
            assert(seq![rawtask_of(t0)] + rawtasks_of(rest) =~= rawtasks_of(ts));
        }
    }
}

/// The whole-store parser reads back exactly the text of a good store.
proof fn lemma_store_complete(v: Seq<char>, ts: Seq<TaskView>)
    requires
        good_store(ts),
        v == store_text(ts),
    ensures
        p_store(v) == Option::Some(rawtasks_of(ts)),
        p_tasks(v, 1) == Option::Some((rawtasks_of(ts), v.len() as int)),
        v.len() >= 2 && v[0] == '[',
    decreases ts.len(),
{
    reveal_strlit("[");
    reveal_strlit("]");
    assert(v.len() == 1 + tasks_text(ts).len() + 1);
    assert(v[0] == '[') by {
        assert(v == "["@ + tasks_text(ts) + "]"@);
    }
    assert(lit_at(v, 1, tasks_text(ts) + "]"@)) by {
        assert(v.subrange(1, 1 + (tasks_text(ts) + "]"@).len() as int) =~= tasks_text(ts)
            + "]"@);
    }
    lemma_tasks_complete(v, 1, ts);
}

impl TaskList {
    /// Writes the whole store as its text form. The text also pins
    /// down, for the parser's benefit, that every date text in it is
    /// made of date characters.
    pub fn serialize(&self) -> (r: String)
        requires
            self.wf(),
        ensures
            r@ == store_text(self.views()),
            store_plain(self.views()),
    {
        let mut out: Vec<char> = Vec::new();
        push_str(&mut out, "[");
        let ghost mid = out@;
        let n = self.tasks.len();
        let mut i: usize = 0;
        proof {
            assert(tasks_text(self.views().subrange(0, 0)) =~= Seq::<char>::empty());
            assert(out@ =~= mid + tasks_text(self.views().subrange(0, 0)));
        }
        while i < n
            invariant
                0 <= i <= n,
                n == self.tasks@.len(),
                self.wf(),
                out@ == mid + tasks_text(self.views().subrange(0, i as int)),
                forall|j: int| 0 <= j < i ==> task_plain(#[trigger] self.views()[j]),
            decreases n - i,
        {
            if i > 0 {
                push_str(&mut out, ",");
            }
            let t = &self.tasks[i];
            proof {
                assert(self.views()[i as int] == self.tasks@[i as int]@);
            }
            push_task(&mut out, t);
            proof {
                let pre = self.views().subrange(0, i as int);
                let cur = self.views().subrange(0, i as int + 1);
                assert(cur =~= pre.push(self.views()[i as int]));
                if i > 0 {
                    lemma_tasks_text_snoc(pre, self.views()[i as int]);
                }
                assert(out@ =~= mid + tasks_text(cur));
            }
            i = i + 1;
        }
        push_str(&mut out, "]");
        proof {
            assert(self.views().subrange(0, n as int) =~= self.views());
            assert(out@ =~= store_text(self.views()));
        }
        chars_to_string(&out)
    }

    /// Reads a store back from its text form, with the focus cleared.
    ///
    /// Any text that a well-formed store with date-character date
    /// texts and no sentinel-colliding description serializes to is
    /// read back to exactly that store; text the format does not
    /// produce may be refused.
    pub fn deserialize(s: &str) -> (r: Option<TaskList>)
        ensures
            r matches Some(st) ==> st.wf() && st.last_shown is None,
            forall|ts: Seq<TaskView>|
                good_store(ts) && s@ == #[trigger] store_text(ts) ==> (r matches Some(st)
                    && st.views() == ts),
    {
        let v = str_to_chars(s);
        if v.len() < 1 {
            proof {
                assert forall|ts: Seq<TaskView>|
                    good_store(ts) && s@ == store_text(ts) implies false by {
                    lemma_store_complete(v@, ts);
                }
            }
            return Option::None;
        }
        if v[0] != '[' {
            proof {
                assert forall|ts: Seq<TaskView>|
                    good_store(ts) && s@ == store_text(ts) implies false by {
                    lemma_store_complete(v@, ts);
                }
            }
            return Option::None;
        }
        match p_tasks_exec(&v, 1) {
            Option::Some((tasks, e)) => {
                if e == v.len() {
                    let st = TaskList { tasks, last_shown: Option::None };
                    proof {
                        assert forall|ts: Seq<TaskView>|
                            good_store(ts) && s@ == store_text(ts) implies st.views() == ts by {
                            lemma_store_complete(v@, ts);
                        }
                    }
                    Option::Some(st)
                } else {
                    proof {
                        assert forall|ts: Seq<TaskView>|
                            good_store(ts) && s@ == store_text(ts) implies false by {
                            lemma_store_complete(v@, ts);
                        }
                    }
                    Option::None
                }
            },
            Option::None => {
                proof {
                    assert forall|ts: Seq<TaskView>|
                        good_store(ts) && s@ == store_text(ts) implies false by {
                        lemma_store_complete(v@, ts);
                    }
                }
                Option::None
            },
        }
    }
}

} // verus!
