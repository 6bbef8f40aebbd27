//! The listing filter: flatten, select by priority flags and due-date
//! bound, sort ascending by due date keeping flattened order among ties,
//! and truncate to a maximum count.

use vstd::prelude::*;

use crate::date::{DueDate, days_between, days_between_exec, due_le, due_le_exec};
use crate::list::TodoList;
use crate::task::{
    CompletionV, Priority, Task, TaskV, dates_ok, dates_ok_from, flat, flat_from, views_of,
};

verus! {

/// Whether a node passes the listing filter: its priority is flagged (no
/// flag passes every priority), and it falls due at most `max_days`
/// whole days from `now` — overdue nodes always pass the bound.
pub open spec fn selected(
    t: TaskV,
    now: DueDate,
    high: bool,
    medium: bool,
    low: bool,
    max_days: i64,
) -> bool {
    let prio_ok: bool = if high || medium || low {
        match t.priority {
            Priority::High => high,
            Priority::Medium => medium,
            Priority::Low => low,
        }
    } else {
        true
    };
    prio_ok && days_between(t.due_date, now) <= max_days
}

/// The elements of `s` from index `i` on that pass the filter, in order.
pub open spec fn selected_from(
    s: Seq<TaskV>,
    i: int,
    now: DueDate,
    high: bool,
    medium: bool,
    low: bool,
    max_days: i64,
) -> Seq<TaskV>
    decreases s.len() - i,
{
    if 0 <= i < s.len() {
        if selected(s[i], now, high, medium, low, max_days) {
            seq![s[i]] + selected_from(s, i + 1, now, high, medium, low, max_days)
        } else {
            selected_from(s, i + 1, now, high, medium, low, max_days)
        }
    } else {
        Seq::empty()
    }
}

/// Insertion after every element that falls due no later: ties keep
/// their earlier position.
pub open spec fn insert_sorted(x: TaskV, s: Seq<TaskV>) -> Seq<TaskV>
    decreases s.len(),
{
    if s.len() == 0 {
        seq![x]
    } else if due_le(s[0].due_date, x.due_date) {
        seq![s[0]] + insert_sorted(x, s.drop_first())
    } else {
        seq![x] + s
    }
}

/// Stable insertion sort ascending by due date.
pub open spec fn sort_by_due(s: Seq<TaskV>) -> Seq<TaskV>
    decreases s.len(),
{
    if s.len() == 0 {
        Seq::empty()
    } else {
        insert_sorted(s.last(), sort_by_due(s.drop_last()))
    }
}

/// The listing: flatten, select, sort, truncate.
pub open spec fn listed(
    forest: Seq<TaskV>,
    now: DueDate,
    high: bool,
    medium: bool,
    low: bool,
    max_days: i64,
    max_count: int,
) -> Seq<TaskV> {
    let sorted = sort_by_due(
        selected_from(flat_from(forest, 0), 0, now, high, medium, low, max_days),
    );
    if max_count < sorted.len() {
        sorted.take(max_count)
    } else {
        sorted
    }
}

/// The sorted sequence holds the same count and ascending due dates.
pub proof fn lemma_insert_sorted_props(x: TaskV, s: Seq<TaskV>)
    requires
        forall|a: int, b: int| 0 <= a <= b < s.len() ==> due_le(
            #[trigger] s[a].due_date,
            #[trigger] s[b].due_date,
        ),
    ensures
        insert_sorted(x, s).len() == s.len() + 1,
        insert_sorted(x, s).to_multiset() == s.push(x).to_multiset(),
        forall|a: int, b: int| 0 <= a <= b < insert_sorted(x, s).len() ==> due_le(
            #[trigger] insert_sorted(x, s)[a].due_date,
            #[trigger] insert_sorted(x, s)[b].due_date,
        ),
    decreases s.len(),
{
    broadcast use vstd::seq_lib::group_to_multiset_ensures;

    if s.len() == 0 {
        assert(insert_sorted(x, s) =~= seq![x]);
        assert(seq![x] =~= s.push(x));
    } else if due_le(s[0].due_date, x.due_date) {
        assert(forall|a: int, b: int|
            0 <= a <= b < s.drop_first().len() ==> due_le(
                #[trigger] s.drop_first()[a].due_date,
                #[trigger] s.drop_first()[b].due_date,
            ));
        lemma_insert_sorted_props(x, s.drop_first());
        let r = seq![s[0]] + insert_sorted(x, s.drop_first());
        assert(insert_sorted(x, s) == r);
        assert forall|a: int, b: int| 0 <= a <= b < r.len() implies due_le(
            #[trigger] r[a].due_date,
            #[trigger] r[b].due_date,
        ) by {
            if a == 0 {
                if b > 0 {
                    let inner = insert_sorted(x, s.drop_first());
                    assert(r[b] == inner[b - 1]);
                    assert(inner.to_multiset() == s.drop_first().push(x).to_multiset());
                    assert(inner.to_multiset().contains(inner[b - 1]));
                    assert(s.drop_first().push(x).to_multiset().contains(inner[b - 1]));
                    assert(s.drop_first().push(x).contains(inner[b - 1]));
                    let w = choose|w: int|
                        0 <= w < s.drop_first().push(x).len() && s.drop_first().push(x)[w]
                            == inner[b - 1];
                    if w < s.len() - 1 {
                        assert(s.drop_first()[w] == s[w + 1]);
                        assert(due_le(s[0].due_date, s[w + 1].due_date));
                    } else {
                        assert(s.drop_first().push(x)[w] == x);
                    }
                }
            } else {
                let inner = insert_sorted(x, s.drop_first());
                assert(r[a] == inner[a - 1] && r[b] == inner[b - 1]);
            }
        }
        assert(r.to_multiset() =~= s.push(x).to_multiset()) by {
            assert(r =~= insert_sorted(x, s.drop_first()).insert(0, s[0]));
            assert(s.drop_first().push(x).insert(0, s[0]) =~= s.push(x));
            vstd::seq_lib::lemma_multiset_commutative(
                seq![s[0]],
                insert_sorted(x, s.drop_first()),
            );
            vstd::seq_lib::lemma_multiset_commutative(seq![s[0]], s.drop_first().push(x));
            assert(seq![s[0]] + insert_sorted(x, s.drop_first()) =~= r);
            assert(seq![s[0]] + s.drop_first().push(x) =~= s.push(x));
        }
    } else {
        assert(insert_sorted(x, s) == seq![x] + s);
        assert forall|a: int, b: int| 0 <= a <= b < (seq![x] + s).len() implies due_le(
            #[trigger] (seq![x] + s)[a].due_date,
            #[trigger] (seq![x] + s)[b].due_date,
        ) by {
            if a == 0 && b > 0 {
                assert((seq![x] + s)[b] == s[b - 1]);
                assert(due_le(x.due_date, s[0].due_date));
                assert(due_le(s[0].due_date, s[b - 1].due_date));
            } else if a > 0 {
                assert((seq![x] + s)[a] == s[a - 1] && (seq![x] + s)[b] == s[b - 1]);
            }
        }
        vstd::seq_lib::lemma_multiset_commutative(seq![x], s);
        assert(s.push(x) =~= s + seq![x]);
        vstd::seq_lib::lemma_multiset_commutative(s, seq![x]);
    }
}

/// The sort returns a permutation of its input, ascending by due date.
pub proof fn lemma_sort_by_due_props(s: Seq<TaskV>)
    ensures
        sort_by_due(s).len() == s.len(),
        sort_by_due(s).to_multiset() == s.to_multiset(),
        forall|a: int, b: int| 0 <= a <= b < sort_by_due(s).len() ==> due_le(
            #[trigger] sort_by_due(s)[a].due_date,
            #[trigger] sort_by_due(s)[b].due_date,
        ),
    decreases s.len(),
{
    broadcast use vstd::seq_lib::group_to_multiset_ensures;

    if s.len() == 0 {
        assert(sort_by_due(s).to_multiset() =~= s.to_multiset());
    } else {
        lemma_sort_by_due_props(s.drop_last());
        lemma_insert_sorted_props(s.last(), sort_by_due(s.drop_last()));
        assert(sort_by_due(s.drop_last()).push(s.last()).to_multiset() == sort_by_due(
            s.drop_last(),
        ).to_multiset().insert(s.last()));
        assert(s =~= s.drop_last().push(s.last()));
    }
}

/// Where the scan stopped is where the insertion lands.
pub proof fn lemma_insert_sorted_split(x: TaskV, s: Seq<TaskV>, m: int)
    requires
        0 <= m <= s.len(),
        forall|i: int| 0 <= i < m ==> due_le((#[trigger] s[i]).due_date, x.due_date),
        m < s.len() ==> !due_le(s[m].due_date, x.due_date),
    ensures
        insert_sorted(x, s) == s.take(m) + seq![x] + s.skip(m),
    decreases s.len(),
{
    if m == 0 {
        if s.len() == 0 {
            assert(insert_sorted(x, s) =~= s.take(0) + seq![x] + s.skip(0));
        } else {
            assert(insert_sorted(x, s) =~= s.take(0) + seq![x] + s.skip(0));
        }
    } else {
        assert(due_le(s[0].due_date, x.due_date));
        assert(forall|i: int|
            0 <= i < m - 1 ==> due_le((#[trigger] s.drop_first()[i]).due_date, x.due_date));
        lemma_insert_sorted_split(x, s.drop_first(), m - 1);
        assert(insert_sorted(x, s) =~= s.take(m) + seq![x] + s.skip(m));
    }
}

/// Inserts a borrowed node into a vector ordered ascending by due date,
/// after every node falling due no later.
#[verifier::loop_isolation(false)]
fn insert_by_due<'a>(out: &mut Vec<&'a Task>, x: &'a Task)
    requires
        x.due_date.wf(),
        forall|i: int| 0 <= i < old(out)@.len() ==> (#[trigger] old(out)@[i]).due_date.wf(),
    ensures
        views_of(final(out)@) == insert_sorted(x.deep(), views_of(old(out)@)),
        forall|i: int| 0 <= i < final(out)@.len() ==> (#[trigger] final(out)@[i]).due_date.wf(),
{
    let ghost s: Seq<TaskV> = views_of(out@);
    let mut m: usize = 0;
    while m < out.len() && due_le_exec(&out[m].due_date, &x.due_date)
        invariant
            m <= out.len(),
            forall|i: int| 0 <= i < m ==> due_le((#[trigger] s[i]).due_date, x.deep().due_date),
        decreases out.len() - m,
    {
        proof {
            assert(s[m as int] == out@[m as int].deep());
        }
        m += 1;
    }
    proof {
        lemma_insert_sorted_split(x.deep(), s, m as int);
    }
    let ghost before: Seq<&Task> = out@;
    out.insert(m, x);
    proof {
        assert(out@ =~= before.take(m as int) + seq![x] + before.skip(m as int));
        assert(views_of(out@) =~= s.take(m as int) + seq![x.deep()] + s.skip(m as int));
    }
}

/// Stable insertion sort of borrowed nodes, ascending by due date.
#[verifier::loop_isolation(false)]
fn sorted_by_due<'a>(xs: &Vec<&'a Task>) -> (r: Vec<&'a Task>)
    requires
        forall|i: int| 0 <= i < xs@.len() ==> (#[trigger] xs@[i]).due_date.wf(),
    ensures
        views_of(r@) == sort_by_due(views_of(xs@)),
{
    let ghost vs: Seq<TaskV> = views_of(xs@);
    let mut out: Vec<&Task> = Vec::new();
    proof {
        assert(views_of(out@) =~= Seq::<TaskV>::empty());
        assert(vs.take(0) =~= Seq::<TaskV>::empty());
    }
    let mut k: usize = 0;
    while k < xs.len()
        invariant
            k <= xs.len(),
            views_of(out@) == sort_by_due(vs.take(k as int)),
            forall|i: int| 0 <= i < out@.len() ==> (#[trigger] out@[i]).due_date.wf(),
        decreases xs.len() - k,
    {
        let x = xs[k];
        proof {
            assert(vs[k as int] == x.deep());
        }
        insert_by_due(&mut out, x);
        proof {
            assert(vs.take(k + 1).drop_last() =~= vs.take(k as int));
            assert(vs.take(k + 1).last() == vs[k as int]);
        }
        k += 1;
    }
    proof {
        assert(vs.take(xs@.len() as int) =~= vs);
    }
    out
}

/// Executable counterpart of [`selected`].
pub fn selected_exec(
    t: &Task,
    now: &DueDate,
    high: bool,
    medium: bool,
    low: bool,
    max_days: i64,
) -> (r: bool)
    requires
        t.due_date.wf(),
        now.wf(),
    ensures
        r == selected(t.deep(), *now, high, medium, low, max_days),
{
    let prio_ok: bool = if high || medium || low {
        match t.priority {
            Priority::High => high,
            Priority::Medium => medium,
            Priority::Low => low,
        }
    } else {
        true
    };
    prio_ok && days_between_exec(&t.due_date, now) <= max_days
}

/// Every node of a traversal of date-valid trees carries a valid date.
pub proof fn lemma_flat_dates(t: TaskV)
    ensures
        dates_ok(t) ==> forall|j: int| 0 <= j < flat(t).len() ==> (#[trigger] flat(
            t,
        )[j]).due_date.wf(),
    decreases t, 1int,
{
    match t.completion {
        CompletionV::Complete => {},
        CompletionV::Incomplete(ch) => {
            lemma_flat_dates_from(ch, 0);
            if dates_ok(t) {
                assert forall|j: int| 0 <= j < flat(t).len() implies (#[trigger] flat(
                    t,
                )[j]).due_date.wf() by {
                    if j == 0 {
                        assert(flat(t)[0] == t);
                    } else {
                        assert(flat(t)[j] == flat_from(ch, 0)[j - 1]);
                    }
                }
            }
        },
    }
}

pub proof fn lemma_flat_dates_from(s: Seq<TaskV>, i: int)
    ensures
        dates_ok_from(s, i) ==> forall|j: int| 0 <= j < flat_from(s, i).len() ==> (
        #[trigger] flat_from(s, i)[j]).due_date.wf(),
    decreases s, s.len() - i,
{
    if 0 <= i < s.len() {
        lemma_flat_dates(s[i]);
        lemma_flat_dates_from(s, i + 1);
        if dates_ok_from(s, i) {
            assert forall|j: int| 0 <= j < flat_from(s, i).len() implies (#[trigger] flat_from(
                s,
                i,
            )[j]).due_date.wf() by {
                if j < flat(s[i]).len() {
                    assert(flat_from(s, i)[j] == flat(s[i])[j]);
                } else {
                    assert(flat_from(s, i)[j] == flat_from(s, i + 1)[j - flat(s[i]).len()]);
                }
            }
        }
    }
}

impl TodoList {
    /// The "list" use case: the flattened forest filtered by priority
    /// flags and the due-date bound, sorted ascending by due date with
    /// ties in flattened order, truncated to `max_count`. Pure: the
    /// store is not changed.
    #[verifier::loop_isolation(false)]
    pub fn list<'a>(
        &'a self,
        now: &DueDate,
        high: bool,
        medium: bool,
        low: bool,
        max_days: i64,
        max_count: usize,
    ) -> (r: Vec<&'a Task>)
        requires
            self.wf(),
            now.wf(),
        ensures
            views_of(r@) == listed(
                self@.tasks,
                *now,
                high,
                medium,
                low,
                max_days,
                max_count as int,
            ),
    {
        let fl = self.flattened();
        let ghost vs: Seq<TaskV> = views_of(fl@);
        proof {
            lemma_flat_dates_from(self@.tasks, 0);
        }
        let mut kept: Vec<&Task> = Vec::new();
        let mut k: usize = 0;
        while k < fl.len()
            invariant
                k <= fl.len(),
                views_of(kept@) + selected_from(vs, k as int, *now, high, medium, low, max_days)
                    == selected_from(vs, 0, *now, high, medium, low, max_days),
                forall|i: int| 0 <= i < kept@.len() ==> (#[trigger] kept@[i]).due_date.wf(),
            decreases fl.len() - k,
        {
            let t: &Task = fl[k];
            proof {
                assert(vs[k as int] == t.deep());
            }
            if selected_exec(t, now, high, medium, low, max_days) {
                kept.push(t);
            }
            proof {
                assert(views_of(kept@) + selected_from(vs, k + 1, *now, high, medium, low, max_days)
                    =~= selected_from(vs, 0, *now, high, medium, low, max_days));
            }
            k += 1;
        }
        proof {
            assert(selected_from(vs, fl@.len() as int, *now, high, medium, low, max_days)
                =~= Seq::<TaskV>::empty());
            assert(views_of(kept@) =~= selected_from(vs, 0, *now, high, medium, low, max_days));
        }
        let mut r = sorted_by_due(&kept);
        if max_count < r.len() {
            r.truncate(max_count);
            proof {
                assert(views_of(r@) =~= sort_by_due(views_of(kept@)).take(max_count as int));
            }
        }
        r
    }
}

} // verus!
