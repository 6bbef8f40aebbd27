//! Tree mutation: the functional model of each mutating operation and
//! the executable rebuilds proved against it.
//!
//! Each operation is stated as a recursive function on the mathematical
//! view ([`mc_task`] for completion, [`rm_task`] for removal,
//! [`as_task`] for adding a subtask, [`md_task`] for modification); the
//! executable counterparts rebuild the forest and are proved to return
//! exactly the model's result.

use vstd::prelude::*;

use crate::date::DueDate;
use crate::task::{
    Completion, CompletionV, Task, TaskV, dates_ok, dates_ok_from, deep_from,
    lemma_deep_from_index, lookup, lookup_from, uq, uq_from, uset, uset_from,
};

verus! {

broadcast use vstd::seq::axiom_seq_index_decreases, vstd::std_specs::vec::axiom_vec_index_decreases, vstd::std_specs::vec::axiom_vec_decreases_to_view;

/// The same node with another completion state.
pub open spec fn with_completion(t: TaskV, c: CompletionV) -> TaskV {
    TaskV {
        name: t.name,
        description: t.description,
        priority: t.priority,
        due_date: t.due_date,
        completion: c,
        uuid: t.uuid,
        tags: t.tags,
    }
}

/// The same node with another name and due date.
pub open spec fn with_name_due(t: TaskV, name: Seq<u8>, due: DueDate) -> TaskV {
    TaskV {
        name,
        description: t.description,
        priority: t.priority,
        due_date: due,
        completion: t.completion,
        uuid: t.uuid,
        tags: t.tags,
    }
}

/// Marks the node with identity `u` complete; the terminal variant
/// carries no payload, so that node's children are discarded.
pub open spec fn mc_task(t: TaskV, u: u128) -> TaskV
    decreases t, 1int,
{
    if t.uuid == u {
        with_completion(t, CompletionV::Complete)
    } else {
        match t.completion {
            CompletionV::Complete => t,
            CompletionV::Incomplete(ch) => with_completion(
                t,
                CompletionV::Incomplete(mc_from(ch, 0, u)),
            ),
        }
    }
}

pub open spec fn mc_from(s: Seq<TaskV>, i: int, u: u128) -> Seq<TaskV>
    decreases s, s.len() - i,
{
    if 0 <= i < s.len() {
        seq![mc_task(s[i], u)] + mc_from(s, i + 1, u)
    } else {
        Seq::empty()
    }
}

/// Removes every node with identity `u`, together with its subtree, at
/// any depth.
pub open spec fn rm_task(t: TaskV, u: u128) -> TaskV
    decreases t, 1int,
{
    match t.completion {
        CompletionV::Complete => t,
        CompletionV::Incomplete(ch) => with_completion(
            t,
            CompletionV::Incomplete(rm_from(ch, 0, u)),
        ),
    }
}

pub open spec fn rm_from(s: Seq<TaskV>, i: int, u: u128) -> Seq<TaskV>
    decreases s, s.len() - i,
{
    if 0 <= i < s.len() {
        if s[i].uuid == u {
            rm_from(s, i + 1, u)
        } else {
            seq![rm_task(s[i], u)] + rm_from(s, i + 1, u)
        }
    } else {
        Seq::empty()
    }
}

/// Adds child `c` under the node with identity `p`. A complete parent is
/// reopened: its terminal state is replaced by a fresh single-child
/// sequence.
pub open spec fn as_task(t: TaskV, p: u128, c: TaskV) -> TaskV
    decreases t, 1int,
{
    if t.uuid == p {
        match t.completion {
            CompletionV::Complete => with_completion(t, CompletionV::Incomplete(seq![c])),
            CompletionV::Incomplete(ch) => with_completion(t, CompletionV::Incomplete(ch.push(c))),
        }
    } else {
        match t.completion {
            CompletionV::Complete => t,
            CompletionV::Incomplete(ch) => with_completion(
                t,
                CompletionV::Incomplete(as_from(ch, 0, p, c)),
            ),
        }
    }
}

pub open spec fn as_from(s: Seq<TaskV>, i: int, p: u128, c: TaskV) -> Seq<TaskV>
    decreases s, s.len() - i,
{
    if 0 <= i < s.len() {
        seq![as_task(s[i], p, c)] + as_from(s, i + 1, p, c)
    } else {
        Seq::empty()
    }
}

/// Replaces the name and due date of the node with identity `u`, where
/// supplied; all other attributes and the whole structure stay.
pub open spec fn md_task(t: TaskV, u: u128, name: Option<Seq<u8>>, due: Option<DueDate>) -> TaskV
    decreases t, 1int,
{
    if t.uuid == u {
        with_name_due(
            t,
            match name {
                Some(n) => n,
                None => t.name,
            },
            match due {
                Some(d) => d,
                None => t.due_date,
            },
        )
    } else {
        match t.completion {
            CompletionV::Complete => t,
            CompletionV::Incomplete(ch) => with_completion(
                t,
                CompletionV::Incomplete(md_from(ch, 0, u, name, due)),
            ),
        }
    }
}

pub open spec fn md_from(
    s: Seq<TaskV>,
    i: int,
    u: u128,
    name: Option<Seq<u8>>,
    due: Option<DueDate>,
) -> Seq<TaskV>
    decreases s, s.len() - i,
{
    if 0 <= i < s.len() {
        seq![md_task(s[i], u, name, due)] + md_from(s, i + 1, u, name, due)
    } else {
        Seq::empty()
    }
}

pub proof fn lemma_deep_from_push(s: Seq<Task>, x: Task, i: int)
    requires
        0 <= i <= s.len(),
    ensures
        deep_from(s.push(x), i) == deep_from(s, i) + seq![x.deep()],
    decreases s.len() - i,
{
    if i < s.len() {
        lemma_deep_from_push(s, x, i + 1);
        assert(s.push(x)[i] == s[i]);
        assert(deep_from(s.push(x), i) =~= deep_from(s, i) + seq![x.deep()]);
    } else {
        assert(s.push(x)[i] == x);
        assert(deep_from(s.push(x), i + 1) =~= Seq::<TaskV>::empty());
        assert(deep_from(s.push(x), i) =~= deep_from(s, i) + seq![x.deep()]);
    }
}

/// Byte-for-byte copy of a text field.
pub fn copy_bytes(v: &Vec<u8>) -> (r: Vec<u8>)
    ensures
        r@ == v@,
{
    let mut r: Vec<u8> = Vec::new();
    let mut k: usize = 0;
    while k < v.len()
        invariant
            k <= v.len(),
            r@ == v@.subrange(0, k as int),
        decreases v.len() - k,
    {
        r.push(v[k]);
        proof {
            assert(r@ =~= v@.subrange(0, k + 1));
        }
        k += 1;
    }
    proof {
        assert(r@ =~= v@);
    }
    r
}

/// Copy of an identity list.
pub fn copy_ids(v: &Vec<u128>) -> (r: Vec<u128>)
    ensures
        r@ == v@,
{
    let mut r: Vec<u128> = Vec::new();
    let mut k: usize = 0;
    while k < v.len()
        invariant
            k <= v.len(),
            r@ == v@.subrange(0, k as int),
        decreases v.len() - k,
    {
        r.push(v[k]);
        proof {
            assert(r@ =~= v@.subrange(0, k + 1));
        }
        k += 1;
    }
    proof {
        assert(r@ =~= v@);
    }
    r
}

/// Rebuilds a forest with the node of identity `u` marked complete.
#[verifier::loop_isolation(false)]
pub fn mc_vec(s: &Vec<Task>, u: u128) -> (r: Vec<Task>)
    ensures
        deep_from(r@, 0) == mc_from(deep_from(s@, 0), 0, u),
    decreases *s,
{
    let ghost sv: Seq<TaskV> = deep_from(s@, 0);
    proof {
        lemma_deep_from_index(s@, 0);
    }
    let mut r: Vec<Task> = Vec::new();
    let mut k: usize = 0;
    while k < s.len()
        invariant
            k <= s.len(),
            deep_from(r@, 0) + mc_from(sv, k as int, u) == mc_from(sv, 0, u),
        decreases s.len() - k,
    {
        let t = &s[k];
        proof {
            assert(decreases_to!(*s => s@));
            assert(decreases_to!(s@ => s@[k as int]));
            assert(s@[k as int] == *t);
        }
        let new_completion: Completion = if t.uuid == u {
            Completion::Complete
        } else {
            match &t.completion {
                Completion::Complete => Completion::Complete,
                Completion::Incomplete(ch) => {
                    proof {
                        assert(decreases_to!(*t => t.completion));
                        assert(decreases_to!(t.completion => t.completion->Incomplete_0));
                        assert(t.completion->Incomplete_0 == *ch);
                        assert(decreases_to!(*s => *ch));
                    }
                    Completion::Incomplete(mc_vec(ch, u))
                },
            }
        };
        let nt = Task {
            name: copy_bytes(&t.name),
            description: copy_bytes(&t.description),
            priority: t.priority,
            due_date: t.due_date,
            completion: new_completion,
            uuid: t.uuid,
            tags: copy_ids(&t.tags),
        };
        proof {
            assert(nt.deep() =~= mc_task(sv[k as int], u));
        }
        let ghost r_old: Seq<Task> = r@;
        r.push(nt);
        proof {
            lemma_deep_from_push(r_old, nt, 0);
            assert(deep_from(r@, 0) + mc_from(sv, k + 1, u) =~= mc_from(sv, 0, u));
        }
        k += 1;
    }
    proof {
        assert(mc_from(sv, s@.len() as int, u) =~= Seq::<TaskV>::empty());
        assert(deep_from(r@, 0) =~= mc_from(sv, 0, u));
    }
    r
}


/// Restates each recursive forest predicate on a sequence with one tree
/// put in front.
pub proof fn lemma_shift_facts(x: TaskV, r: Seq<TaskV>, i: int, v: u128)
    requires
        0 <= i <= r.len(),
    ensures
        uset_from(seq![x] + r, i + 1) == uset_from(r, i),
        uq_from(seq![x] + r, i + 1) == uq_from(r, i),
        dates_ok_from(seq![x] + r, i + 1) == dates_ok_from(r, i),
        lookup_from(seq![x] + r, i + 1, v) == lookup_from(r, i, v),
    decreases r.len() - i,
{
    if i < r.len() {
        assert((seq![x] + r)[i + 1] == r[i]);
        lemma_shift_facts(x, r, i + 1, v);
    } else {
        assert(uset_from(seq![x] + r, i + 1) =~= uset_from(r, i));
    }
}

/// Restates each recursive forest predicate on `seq![x] + r` in terms of
/// `x` and `r`.
pub proof fn lemma_cons_facts(x: TaskV, r: Seq<TaskV>, v: u128)
    ensures
        uset_from(seq![x] + r, 0) == uset(x).union(uset_from(r, 0)),
        uq_from(seq![x] + r, 0) == (uq(x) && uset(x).disjoint(uset_from(r, 0)) && uq_from(r, 0)),
        dates_ok_from(seq![x] + r, 0) == (dates_ok(x) && dates_ok_from(r, 0)),
        lookup_from(seq![x] + r, 0, v) == (match lookup(x, v) {
            Some(a) => Some(a),
            None => lookup_from(r, 0, v),
        }),
{
    assert((seq![x] + r)[0] == x);
    lemma_shift_facts(x, r, 0, v);
}

/// Restates each recursive forest predicate on `s.push(x)` in terms of
/// `s` and `x`.
pub proof fn lemma_push_facts(s: Seq<TaskV>, x: TaskV, i: int, v: u128)
    requires
        0 <= i <= s.len(),
    ensures
        uset_from(s.push(x), i) == uset_from(s, i).union(uset(x)),
        (uq_from(s, i) && uq(x) && uset(x).disjoint(uset_from(s, i))) ==> uq_from(s.push(x), i),
        dates_ok_from(s.push(x), i) == (dates_ok_from(s, i) && dates_ok(x)),
        lookup_from(s.push(x), i, v) == (match lookup_from(s, i, v) {
            Some(a) => Some(a),
            None => lookup(x, v),
        }),
    decreases s.len() - i,
{
    if i < s.len() {
        assert(s.push(x)[i] == s[i]);
        assert(s.push(x).len() == s.len() + 1);
        lemma_push_facts(s, x, i + 1, v);
        assert(uq_from(s, i) == (uq(s[i]) && uset(s[i]).disjoint(uset_from(s, i + 1)) && uq_from(
            s,
            i + 1,
        )));
        assert(uq_from(s.push(x), i) == (uq(s.push(x)[i]) && uset(s.push(x)[i]).disjoint(
            uset_from(s.push(x), i + 1),
        ) && uq_from(s.push(x), i + 1)));
        assert(dates_ok_from(s.push(x), i) == (dates_ok(s.push(x)[i]) && dates_ok_from(
            s.push(x),
            i + 1,
        )));
        assert(lookup_from(s.push(x), i, v) == (match lookup(s.push(x)[i], v) {
            Some(a) => Some(a),
            None => lookup_from(s.push(x), i + 1, v),
        }));
        assert(dates_ok_from(s, i) == (dates_ok(s[i]) && dates_ok_from(s, i + 1)));
        assert(lookup_from(s, i, v) == (match lookup(s[i], v) {
            Some(a) => Some(a),
            None => lookup_from(s, i + 1, v),
        }));
        assert(uset_from(s, i) == uset(s[i]).union(uset_from(s, i + 1)));
        assert(uset_from(s.push(x), i) =~= uset_from(s, i).union(uset(x)));
        if uq_from(s, i) && uq(x) && uset(x).disjoint(uset_from(s, i)) {
            assert forall|e: u128| uset(x).contains(e) implies !uset_from(s, i + 1).contains(
                e,
            ) by {
                assert(!uset_from(s, i).contains(e));
            }
            assert(uset(x).disjoint(uset_from(s, i + 1)));
            assert(uq_from(s.push(x), i + 1));
            assert forall|e: u128| uset(s[i]).contains(e) implies !uset_from(
                s.push(x),
                i + 1,
            ).contains(e) by {
                assert(uset_from(s, i).contains(e));
            }
            assert(uset(s[i]).disjoint(uset_from(s.push(x), i + 1)));
            assert(uq_from(s.push(x), i));
        }
        assert(dates_ok_from(s.push(x), i) == (dates_ok_from(s, i) && dates_ok(x)));
    } else {
        assert(s.push(x)[i] == x);
        assert(s.push(x).len() == s.len() + 1);
        assert(uset_from(s.push(x), i + 1) =~= Set::<u128>::empty());
        assert(uset_from(s.push(x), i) =~= uset_from(s, i).union(uset(x)));
        assert(uset(x).disjoint(Set::<u128>::empty()));
        assert(uq_from(s.push(x), i + 1));
        assert(uq_from(s.push(x), i) == (uq(s.push(x)[i]) && uset(s.push(x)[i]).disjoint(
            uset_from(s.push(x), i + 1),
        ) && uq_from(s.push(x), i + 1)));
        assert(dates_ok_from(s.push(x), i + 1));
        assert(dates_ok_from(s, i));
        assert(dates_ok_from(s.push(x), i) == (dates_ok(s.push(x)[i]) && dates_ok_from(
            s.push(x),
            i + 1,
        )));
        assert(lookup_from(s.push(x), i + 1, v) is None);
        assert(lookup_from(s, i, v) is None);
        assert(lookup_from(s.push(x), i, v) == (match lookup(s.push(x)[i], v) {
            Some(a) => Some(a),
            None => lookup_from(s.push(x), i + 1, v),
        }));
    }
}

/// What marking a node complete does to identities, uniqueness, dates
/// and already-complete nodes: identities only disappear, uniqueness and
/// valid dates are kept, and a complete node stays complete or vanishes
/// with a discarded subtree.
pub proof fn lemma_mc_preserves(t: TaskV, u: u128, v: u128)
    ensures
        uset(mc_task(t, u)).subset_of(uset(t)),
        mc_task(t, u).uuid == t.uuid,
        uq(t) ==> uq(mc_task(t, u)),
        dates_ok(t) ==> dates_ok(mc_task(t, u)),
        uq(t) ==> (match lookup(t, v) {
            Some(a) => a.is_complete() ==> (match lookup(mc_task(t, u), v) {
                Some(b) => b.is_complete(),
                None => true,
            }),
            None => lookup(mc_task(t, u), v) is None,
        }),
    decreases t, 1int,
{
    if t.uuid == u {
    } else {
        match t.completion {
            CompletionV::Complete => {},
            CompletionV::Incomplete(ch) => {
                lemma_mc_preserves_from(ch, 0, u, v);
            },
        }
    }
}

pub proof fn lemma_mc_preserves_from(s: Seq<TaskV>, i: int, u: u128, v: u128)
    ensures
        uset_from(mc_from(s, i, u), 0).subset_of(uset_from(s, i)),
        uq_from(s, i) ==> uq_from(mc_from(s, i, u), 0),
        dates_ok_from(s, i) ==> dates_ok_from(mc_from(s, i, u), 0),
        uq_from(s, i) ==> (match lookup_from(s, i, v) {
            Some(a) => a.is_complete() ==> (match lookup_from(mc_from(s, i, u), 0, v) {
                Some(b) => b.is_complete(),
                None => true,
            }),
            None => lookup_from(mc_from(s, i, u), 0, v) is None,
        }),
    decreases s, s.len() - i,
{
    if 0 <= i < s.len() {
        let y = mc_task(s[i], u);
        let rest = mc_from(s, i + 1, u);
        lemma_mc_preserves(s[i], u, v);
        lemma_mc_preserves_from(s, i + 1, u, v);
        lemma_cons_facts(y, rest, v);
        if uq_from(s, i) {
            crate::task::lemma_lookup_uset(s[i], v);
            crate::task::lemma_lookup_uset_from(s, i + 1, v);
        }
    } else {
        assert(uset_from(mc_from(s, i, u), 0) =~= Set::<u128>::empty());
    }
}


/// What removing an identity does: identities only disappear, uniqueness
/// and valid dates are kept, and a complete node stays complete or is
/// removed with its subtree.
pub proof fn lemma_rm_preserves(t: TaskV, u: u128, v: u128)
    ensures
        uset(rm_task(t, u)).subset_of(uset(t)),
        rm_task(t, u).uuid == t.uuid,
        uq(t) ==> uq(rm_task(t, u)),
        dates_ok(t) ==> dates_ok(rm_task(t, u)),
        uq(t) ==> (match lookup(t, v) {
            Some(a) => a.is_complete() ==> (match lookup(rm_task(t, u), v) {
                Some(b) => b.is_complete(),
                None => true,
            }),
            None => lookup(rm_task(t, u), v) is None,
        }),
    decreases t, 1int,
{
    match t.completion {
        CompletionV::Complete => {},
        CompletionV::Incomplete(ch) => {
            lemma_rm_preserves_from(ch, 0, u, v);
        },
    }
}

pub proof fn lemma_rm_preserves_from(s: Seq<TaskV>, i: int, u: u128, v: u128)
    ensures
        uset_from(rm_from(s, i, u), 0).subset_of(uset_from(s, i)),
        uq_from(s, i) ==> uq_from(rm_from(s, i, u), 0),
        dates_ok_from(s, i) ==> dates_ok_from(rm_from(s, i, u), 0),
        uq_from(s, i) ==> (match lookup_from(s, i, v) {
            Some(a) => a.is_complete() ==> (match lookup_from(rm_from(s, i, u), 0, v) {
                Some(b) => b.is_complete(),
                None => true,
            }),
            None => lookup_from(rm_from(s, i, u), 0, v) is None,
        }),
    decreases s, s.len() - i,
{
    if 0 <= i < s.len() {
        lemma_rm_preserves_from(s, i + 1, u, v);
        if uq_from(s, i) {
            crate::task::lemma_lookup_uset(s[i], v);
            crate::task::lemma_lookup_uset_from(s, i + 1, v);
        }
        if s[i].uuid == u {
        } else {
            let y = rm_task(s[i], u);
            let rest = rm_from(s, i + 1, u);
            lemma_rm_preserves(s[i], u, v);
            lemma_cons_facts(y, rest, v);
        }
    } else {
        assert(uset_from(rm_from(s, i, u), 0) =~= Set::<u128>::empty());
    }
}

/// What adding a fresh subtask under parent `p` does: the new identity
/// is the only one added, uniqueness and valid dates are kept, and every
/// complete node other than the reopened parent stays complete.
pub proof fn lemma_as_preserves(t: TaskV, p: u128, c: TaskV, v: u128)
    requires
        uq(c),
        dates_ok(c),
    ensures
        uset(as_task(t, p, c)).subset_of(uset(t).union(uset(c))),
        !uset(t).contains(p) ==> uset(as_task(t, p, c)) == uset(t),
        as_task(t, p, c).uuid == t.uuid,
        (uq(t) && uset(c).disjoint(uset(t))) ==> uq(as_task(t, p, c)),
        dates_ok(t) ==> dates_ok(as_task(t, p, c)),
        (uq(t) && !uset(c).contains(v) && v != p) ==> (match lookup(t, v) {
            Some(a) => (match lookup(as_task(t, p, c), v) {
                Some(b) => b.is_complete() == a.is_complete(),
                None => false,
            }),
            None => lookup(as_task(t, p, c), v) is None,
        }),
    decreases t, 1int,
{
    crate::task::lemma_lookup_uset(c, v);
    if t.uuid == p {
        match t.completion {
            CompletionV::Complete => {
                let one = seq![c];
                assert(one[0] == c);
                assert(uset_from(one, 1) =~= Set::<u128>::empty());
                assert(uset_from(one, 0) =~= uset(c));
                assert(uq_from(one, 1));
                assert(dates_ok_from(one, 1));
                assert(lookup_from(one, 1, v) is None);
            },
            CompletionV::Incomplete(ch) => {
                lemma_push_facts(ch, c, 0, v);
                if uq(t) && uset(c).disjoint(uset(t)) {
                    assert forall|e: u128| uset(c).contains(e) implies !uset_from(ch, 0).contains(
                        e,
                    ) by {
                        assert(uset(t).contains(e) == (e == t.uuid || uset_from(ch, 0).contains(
                            e,
                        )));
                    }
                    assert(uset(c).disjoint(uset_from(ch, 0)));
                }
            },
        }
    } else {
        match t.completion {
            CompletionV::Complete => {},
            CompletionV::Incomplete(ch) => {
                lemma_as_preserves_from(ch, 0, p, c, v);
                if !uset(t).contains(p) {
                    assert(!uset_from(ch, 0).contains(p));
                    assert(uset(as_task(t, p, c)) =~= uset(t));
                }
            },
        }
    }
}

pub proof fn lemma_as_preserves_from(s: Seq<TaskV>, i: int, p: u128, c: TaskV, v: u128)
    requires
        uq(c),
        dates_ok(c),
    ensures
        uset_from(as_from(s, i, p, c), 0).subset_of(uset_from(s, i).union(uset(c))),
        !uset_from(s, i).contains(p) ==> uset_from(as_from(s, i, p, c), 0) == uset_from(s, i),
        (uq_from(s, i) && uset(c).disjoint(uset_from(s, i))) ==> uq_from(as_from(s, i, p, c), 0),
        dates_ok_from(s, i) ==> dates_ok_from(as_from(s, i, p, c), 0),
        (uq_from(s, i) && !uset(c).contains(v) && v != p) ==> (match lookup_from(s, i, v) {
            Some(a) => (match lookup_from(as_from(s, i, p, c), 0, v) {
                Some(b) => b.is_complete() == a.is_complete(),
                None => false,
            }),
            None => lookup_from(as_from(s, i, p, c), 0, v) is None,
        }),
    decreases s, s.len() - i,
{
    if 0 <= i < s.len() {
        let y = as_task(s[i], p, c);
        let rest = as_from(s, i + 1, p, c);
        lemma_as_preserves(s[i], p, c, v);
        lemma_as_preserves_from(s, i + 1, p, c, v);
        lemma_cons_facts(y, rest, v);
        if uq_from(s, i) {
            crate::task::lemma_lookup_uset(s[i], v);
            crate::task::lemma_lookup_uset_from(s, i + 1, v);
        }
        assert(uset_from(s, i) == uset(s[i]).union(uset_from(s, i + 1)));
        if !uset_from(s, i).contains(p) {
            assert(uset_from(as_from(s, i, p, c), 0) =~= uset_from(s, i));
        }
        if uq_from(s, i) && uset(c).disjoint(uset_from(s, i)) {
            assert forall|e: u128| uset(c).contains(e) implies !uset(s[i]).contains(e) by {
                assert(!uset_from(s, i).contains(e));
            }
            assert(uset(c).disjoint(uset(s[i])));
            assert forall|e: u128| uset(c).contains(e) implies !uset_from(s, i + 1).contains(
                e,
            ) by {
                assert(!uset_from(s, i).contains(e));
            }
            assert(uset(c).disjoint(uset_from(s, i + 1)));
            assert(uq(y));
            assert(uq_from(rest, 0));
            if uset(s[i]).contains(p) {
                assert(!uset_from(s, i + 1).contains(p));
                assert(uset_from(rest, 0) == uset_from(s, i + 1));
                assert forall|e: u128| uset(y).contains(e) implies !uset_from(rest, 0).contains(
                    e,
                ) by {
                    assert(uset(s[i]).union(uset(c)).contains(e));
                }
            } else {
                assert(uset(y) == uset(s[i]));
                assert forall|e: u128| uset(y).contains(e) implies !uset_from(rest, 0).contains(
                    e,
                ) by {
                    if uset_from(rest, 0).contains(e) {
                        assert(uset_from(s, i + 1).union(uset(c)).contains(e));
                    }
                }
            }
            assert(uset(y).disjoint(uset_from(rest, 0)));
            assert(uq_from(as_from(s, i, p, c), 0));
        }
    } else {
        assert(uset_from(as_from(s, i, p, c), 0) =~= Set::<u128>::empty());
    }
}

/// What modifying a node does: the identities are exactly kept, as is
/// the completion state of every node.
pub proof fn lemma_md_preserves(
    t: TaskV,
    u: u128,
    nm: Option<Seq<u8>>,
    due: Option<DueDate>,
    v: u128,
)
    ensures
        uset(md_task(t, u, nm, due)) == uset(t),
        md_task(t, u, nm, due).uuid == t.uuid,
        uq(t) ==> uq(md_task(t, u, nm, due)),
        (dates_ok(t) && (match due {
            Some(d) => d.wf(),
            None => true,
        })) ==> dates_ok(md_task(t, u, nm, due)),
        (match lookup(t, v) {
            Some(a) => (match lookup(md_task(t, u, nm, due), v) {
                Some(b) => b.is_complete() == a.is_complete(),
                None => false,
            }),
            None => lookup(md_task(t, u, nm, due), v) is None,
        }),
    decreases t, 1int,
{
    if t.uuid == u {
    } else {
        match t.completion {
            CompletionV::Complete => {},
            CompletionV::Incomplete(ch) => {
                lemma_md_preserves_from(ch, 0, u, nm, due, v);
            },
        }
    }
}

pub proof fn lemma_md_preserves_from(
    s: Seq<TaskV>,
    i: int,
    u: u128,
    nm: Option<Seq<u8>>,
    due: Option<DueDate>,
    v: u128,
)
    ensures
        uset_from(md_from(s, i, u, nm, due), 0) == uset_from(s, i),
        uq_from(s, i) ==> uq_from(md_from(s, i, u, nm, due), 0),
        (dates_ok_from(s, i) && (match due {
            Some(d) => d.wf(),
            None => true,
        })) ==> dates_ok_from(md_from(s, i, u, nm, due), 0),
        (match lookup_from(s, i, v) {
            Some(a) => (match lookup_from(md_from(s, i, u, nm, due), 0, v) {
                Some(b) => b.is_complete() == a.is_complete(),
                None => false,
            }),
            None => lookup_from(md_from(s, i, u, nm, due), 0, v) is None,
        }),
    decreases s, s.len() - i,
{
    if 0 <= i < s.len() {
        let y = md_task(s[i], u, nm, due);
        let rest = md_from(s, i + 1, u, nm, due);
        lemma_md_preserves(s[i], u, nm, due, v);
        lemma_md_preserves_from(s, i + 1, u, nm, due, v);
        lemma_cons_facts(y, rest, v);
        assert(uset_from(md_from(s, i, u, nm, due), 0) =~= uset_from(s, i));
    } else {
        assert(uset_from(md_from(s, i, u, nm, due), 0) =~= uset_from(s, i));
    }
}


/// The view of an optional replacement name.
pub open spec fn opt_name_view(n: Option<&Vec<u8>>) -> Option<Seq<u8>> {
    match n {
        Some(v) => Some(v@),
        None => None,
    }
}

/// A deep copy of a forest.
#[verifier::loop_isolation(false)]
pub fn clone_tasks(s: &Vec<Task>) -> (r: Vec<Task>)
    ensures
        deep_from(r@, 0) == deep_from(s@, 0),
    decreases *s,
{
    let ghost sv: Seq<TaskV> = deep_from(s@, 0);
    proof {
        lemma_deep_from_index(s@, 0);
    }
    let mut r: Vec<Task> = Vec::new();
    let mut k: usize = 0;
    while k < s.len()
        invariant
            k <= s.len(),
            deep_from(r@, 0) + deep_from(s@, k as int) == deep_from(s@, 0),
        decreases s.len() - k,
    {
        let t = &s[k];
        proof {
            assert(decreases_to!(*s => s@));
            assert(decreases_to!(s@ => s@[k as int]));
            assert(s@[k as int] == *t);
        }
        let new_completion: Completion = match &t.completion {
            Completion::Complete => Completion::Complete,
            Completion::Incomplete(ch) => {
                proof {
                    assert(decreases_to!(*t => t.completion));
                    assert(decreases_to!(t.completion => t.completion->Incomplete_0));
                    assert(t.completion->Incomplete_0 == *ch);
                    assert(decreases_to!(*s => *ch));
                }
                Completion::Incomplete(clone_tasks(ch))
            },
        };
        let nt = Task {
            name: copy_bytes(&t.name),
            description: copy_bytes(&t.description),
            priority: t.priority,
            due_date: t.due_date,
            completion: new_completion,
            uuid: t.uuid,
            tags: copy_ids(&t.tags),
        };
        proof {
            assert(nt.deep() =~= s@[k as int].deep());
        }
        let ghost r_old: Seq<Task> = r@;
        r.push(nt);
        proof {
            lemma_deep_from_push(r_old, nt, 0);
            assert(deep_from(r@, 0) + deep_from(s@, k + 1) =~= deep_from(s@, 0));
        }
        k += 1;
    }
    proof {
        assert(deep_from(s@, s@.len() as int) =~= Seq::<TaskV>::empty());
        assert(deep_from(r@, 0) =~= deep_from(s@, 0));
    }
    r
}

/// Rebuilds a forest with every node of identity `u` removed, together
/// with its subtree.
#[verifier::loop_isolation(false)]
pub fn rm_vec(s: &Vec<Task>, u: u128) -> (r: Vec<Task>)
    ensures
        deep_from(r@, 0) == rm_from(deep_from(s@, 0), 0, u),
    decreases *s,
{
    let ghost sv: Seq<TaskV> = deep_from(s@, 0);
    proof {
        lemma_deep_from_index(s@, 0);
    }
    let mut r: Vec<Task> = Vec::new();
    let mut k: usize = 0;
    while k < s.len()
        invariant
            k <= s.len(),
            deep_from(r@, 0) + rm_from(sv, k as int, u) == rm_from(sv, 0, u),
        decreases s.len() - k,
    {
        let t = &s[k];
        proof {
            assert(decreases_to!(*s => s@));
            assert(decreases_to!(s@ => s@[k as int]));
            assert(s@[k as int] == *t);
        }
        if t.uuid != u {
            let new_completion: Completion = match &t.completion {
                Completion::Complete => Completion::Complete,
                Completion::Incomplete(ch) => {
                    proof {
                        assert(decreases_to!(*t => t.completion));
                        assert(decreases_to!(t.completion => t.completion->Incomplete_0));
                        assert(t.completion->Incomplete_0 == *ch);
                        assert(decreases_to!(*s => *ch));
                    }
                    Completion::Incomplete(rm_vec(ch, u))
                },
            };
            let nt = Task {
                name: copy_bytes(&t.name),
                description: copy_bytes(&t.description),
                priority: t.priority,
                due_date: t.due_date,
                completion: new_completion,
                uuid: t.uuid,
                tags: copy_ids(&t.tags),
            };
            proof {
                assert(nt.deep() =~= rm_task(sv[k as int], u));
            }
            let ghost r_old: Seq<Task> = r@;
            r.push(nt);
            proof {
                lemma_deep_from_push(r_old, nt, 0);
                assert(deep_from(r@, 0) + rm_from(sv, k + 1, u) =~= rm_from(sv, 0, u));
            }
        }
        k += 1;
    }
    proof {
        assert(rm_from(sv, s@.len() as int, u) =~= Seq::<TaskV>::empty());
        assert(deep_from(r@, 0) =~= rm_from(sv, 0, u));
    }
    r
}

/// Rebuilds a forest with a fresh subtask added under the node of
/// identity `p`.
#[verifier::loop_isolation(false)]
pub fn as_vec(
    s: &Vec<Task>,
    p: u128,
    cname: &Vec<u8>,
    cdesc: &Vec<u8>,
    cprio: crate::task::Priority,
    cdue: DueDate,
    cu: u128,
) -> (r: Vec<Task>)
    ensures
        deep_from(r@, 0) == as_from(
            deep_from(s@, 0),
            0,
            p,
            crate::task::new_task_v(cname@, cdesc@, cprio, cdue, cu),
        ),
    decreases *s,
{
    let ghost c: TaskV = crate::task::new_task_v(cname@, cdesc@, cprio, cdue, cu);
    let ghost sv: Seq<TaskV> = deep_from(s@, 0);
    proof {
        lemma_deep_from_index(s@, 0);
    }
    let mut r: Vec<Task> = Vec::new();
    let mut k: usize = 0;
    while k < s.len()
        invariant
            k <= s.len(),
            deep_from(r@, 0) + as_from(sv, k as int, p, c) == as_from(sv, 0, p, c),
        decreases s.len() - k,
    {
        let t = &s[k];
        proof {
            assert(decreases_to!(*s => s@));
            assert(decreases_to!(s@ => s@[k as int]));
            assert(s@[k as int] == *t);
        }
        let new_completion: Completion = if t.uuid == p {
            match &t.completion {
                Completion::Complete => {
                    let child = crate::task::Task::new(
                        copy_bytes(cname),
                        copy_bytes(cdesc),
                        cprio,
                        cdue,
                        cu,
                    );
                    let mut nc: Vec<Task> = Vec::new();
                    nc.push(child);
                    proof {
                        lemma_deep_from_push(Seq::<Task>::empty(), nc@[0], 0);
                        assert(deep_from(Seq::<Task>::empty(), 0) =~= Seq::<TaskV>::empty());
                        assert(nc@ =~= Seq::<Task>::empty().push(nc@[0]));
                        assert(deep_from(nc@, 0) =~= seq![c]);
                    }
                    Completion::Incomplete(nc)
                },
                Completion::Incomplete(ch) => {
                    let mut nc = clone_tasks(ch);
                    let ghost nc_old: Seq<Task> = nc@;
                    let child = crate::task::Task::new(
                        copy_bytes(cname),
                        copy_bytes(cdesc),
                        cprio,
                        cdue,
                        cu,
                    );
                    nc.push(child);
                    proof {
                        lemma_deep_from_push(nc_old, nc@[nc@.len() - 1], 0);
                        assert(deep_from(nc@, 0) =~= deep_from(ch@, 0).push(c));
                    }
                    Completion::Incomplete(nc)
                },
            }
        } else {
            match &t.completion {
                Completion::Complete => Completion::Complete,
                Completion::Incomplete(ch) => {
                    proof {
                        assert(decreases_to!(*t => t.completion));
                        assert(decreases_to!(t.completion => t.completion->Incomplete_0));
                        assert(t.completion->Incomplete_0 == *ch);
                        assert(decreases_to!(*s => *ch));
                    }
                    Completion::Incomplete(as_vec(ch, p, cname, cdesc, cprio, cdue, cu))
                },
            }
        };
        let nt = Task {
            name: copy_bytes(&t.name),
            description: copy_bytes(&t.description),
            priority: t.priority,
            due_date: t.due_date,
            completion: new_completion,
            uuid: t.uuid,
            tags: copy_ids(&t.tags),
        };
        proof {
            assert(nt.deep() =~= as_task(sv[k as int], p, c));
        }
        let ghost r_old: Seq<Task> = r@;
        r.push(nt);
        proof {
            lemma_deep_from_push(r_old, nt, 0);
            assert(deep_from(r@, 0) + as_from(sv, k + 1, p, c) =~= as_from(sv, 0, p, c));
        }
        k += 1;
    }
    proof {
        assert(as_from(sv, s@.len() as int, p, c) =~= Seq::<TaskV>::empty());
        assert(deep_from(r@, 0) =~= as_from(sv, 0, p, c));
    }
    r
}

/// Rebuilds a forest with the name and due date of the node of identity
/// `u` replaced, where supplied.
#[verifier::loop_isolation(false)]
pub fn md_vec(s: &Vec<Task>, u: u128, nm: Option<&Vec<u8>>, due: Option<DueDate>) -> (r: Vec<Task>)
    ensures
        deep_from(r@, 0) == md_from(deep_from(s@, 0), 0, u, opt_name_view(nm), due),
    decreases *s,
{
    let ghost nmv: Option<Seq<u8>> = opt_name_view(nm);
    let ghost sv: Seq<TaskV> = deep_from(s@, 0);
    proof {
        lemma_deep_from_index(s@, 0);
    }
    let mut r: Vec<Task> = Vec::new();
    let mut k: usize = 0;
    while k < s.len()
        invariant
            k <= s.len(),
            deep_from(r@, 0) + md_from(sv, k as int, u, nmv, due) == md_from(sv, 0, u, nmv, due),
        decreases s.len() - k,
    {
        let t = &s[k];
        proof {
            assert(decreases_to!(*s => s@));
            assert(decreases_to!(s@ => s@[k as int]));
            assert(s@[k as int] == *t);
        }
        let nt: Task = if t.uuid == u {
            let new_completion: Completion = match &t.completion {
                Completion::Complete => Completion::Complete,
                Completion::Incomplete(ch) => Completion::Incomplete(clone_tasks(ch)),
            };
            Task {
                name: match nm {
                    Some(v) => copy_bytes(v),
                    None => copy_bytes(&t.name),
                },
                description: copy_bytes(&t.description),
                priority: t.priority,
                due_date: match due {
                    Some(d) => d,
                    None => t.due_date,
                },
                completion: new_completion,
                uuid: t.uuid,
                tags: copy_ids(&t.tags),
            }
        } else {
            let new_completion: Completion = match &t.completion {
                Completion::Complete => Completion::Complete,
                Completion::Incomplete(ch) => {
                    proof {
                        assert(decreases_to!(*t => t.completion));
                        assert(decreases_to!(t.completion => t.completion->Incomplete_0));
                        assert(t.completion->Incomplete_0 == *ch);
                        assert(decreases_to!(*s => *ch));
                    }
                    Completion::Incomplete(md_vec(ch, u, nm, due))
                },
            };
            Task {
                name: copy_bytes(&t.name),
                description: copy_bytes(&t.description),
                priority: t.priority,
                due_date: t.due_date,
                completion: new_completion,
                uuid: t.uuid,
                tags: copy_ids(&t.tags),
            }
        };
        proof {
            assert(nt.deep() =~= md_task(sv[k as int], u, nmv, due));
        }
        let ghost r_old: Seq<Task> = r@;
        r.push(nt);
        proof {
            lemma_deep_from_push(r_old, nt, 0);
            assert(deep_from(r@, 0) + md_from(sv, k + 1, u, nmv, due) =~= md_from(
                sv,
                0,
                u,
                nmv,
                due,
            ));
        }
        k += 1;
    }
    proof {
        assert(md_from(sv, s@.len() as int, u, nmv, due) =~= Seq::<TaskV>::empty());
        assert(deep_from(r@, 0) =~= md_from(sv, 0, u, nmv, due));
    }
    r
}

/// Depth-first search of a forest for the node with identity `u`.
#[verifier::loop_isolation(false)]
pub fn find_in_vec(s: &Vec<Task>, u: u128) -> (r: Option<&Task>)
    ensures
        match r {
            Some(t) => lookup_from(deep_from(s@, 0), 0, u) == Some(t.deep()),
            None => lookup_from(deep_from(s@, 0), 0, u) is None,
        },
{
    let ghost sv: Seq<TaskV> = deep_from(s@, 0);
    proof {
        lemma_deep_from_index(s@, 0);
    }
    let mut k: usize = 0;
    while k < s.len()
        invariant
            k <= s.len(),
            lookup_from(sv, 0, u) == lookup_from(sv, k as int, u),
        decreases s.len() - k,
    {
        let found = s[k].find_by_uuid(u);
        proof {
            assert(s@[k as int].deep() == sv[k as int]);
        }
        match found {
            Some(t) => {
                return Some(t);
            },
            None => {},
        }
        k += 1;
    }
    None
}


/// A node found by lookup in a forest with valid dates itself carries
/// valid dates throughout its subtree.
pub proof fn lemma_lookup_dates(t: TaskV, u: u128)
    ensures
        match lookup(t, u) {
            Some(n) => dates_ok(t) ==> dates_ok(n),
            None => true,
        },
    decreases t, 1int,
{
    if t.uuid == u {
    } else {
        match t.completion {
            CompletionV::Complete => {},
            CompletionV::Incomplete(ch) => {
                lemma_lookup_dates_from(ch, 0, u);
            },
        }
    }
}

pub proof fn lemma_lookup_dates_from(s: Seq<TaskV>, i: int, u: u128)
    ensures
        match lookup_from(s, i, u) {
            Some(n) => dates_ok_from(s, i) ==> dates_ok(n),
            None => true,
        },
    decreases s, s.len() - i,
{
    if 0 <= i < s.len() {
        lemma_lookup_dates(s[i], u);
        lemma_lookup_dates_from(s, i + 1, u);
    }
}


/// Whether identity `u` occurs in `t`'s subtree.
#[verifier::loop_isolation(false)]
pub fn subtree_has(t: &Task, u: u128) -> (r: bool)
    ensures
        r == uset(t.deep()).contains(u),
    decreases *t,
{
    if t.uuid == u {
        return true;
    }
    match &t.completion {
        Completion::Complete => false,
        Completion::Incomplete(ch) => {
            let ghost chv: Seq<TaskV> = deep_from(ch@, 0);
            proof {
                lemma_deep_from_index(ch@, 0);
                assert(uset(t.deep()) == set![t.uuid].union(uset_from(chv, 0)));
            }
            let mut k: usize = 0;
            while k < ch.len()
                invariant
                    k <= ch.len(),
                    uset_from(chv, 0).contains(u) == uset_from(chv, k as int).contains(u),
                decreases ch.len() - k,
            {
                proof {
                    assert(decreases_to!(*t => t.completion));
                    assert(decreases_to!(t.completion => t.completion->Incomplete_0));
                    assert(t.completion->Incomplete_0 == *ch);
                    assert(decreases_to!(*ch => (*ch)[k as int]));
                    assert(decreases_to!(*t => (*ch)[k as int]));
                    assert(chv[k as int] == ch@[k as int].deep());
                }
                if subtree_has(&ch[k], u) {
                    return true;
                }
                k += 1;
            }
            proof {
                assert(uset_from(chv, ch@.len() as int) =~= Set::<u128>::empty());
            }
            false
        },
    }
}

/// Whether identity `u` occurs in any tree of `s` from index `from` on.
#[verifier::loop_isolation(false)]
pub fn forest_has(s: &Vec<Task>, from: usize, u: u128) -> (r: bool)
    ensures
        r == uset_from(deep_from(s@, 0), from as int).contains(u),
{
    let ghost sv: Seq<TaskV> = deep_from(s@, 0);
    proof {
        lemma_deep_from_index(s@, 0);
    }
    let mut k: usize = from;
    while k < s.len()
        invariant
            from <= k,
            uset_from(sv, from as int).contains(u) == uset_from(sv, k as int).contains(u),
        decreases s.len() - k,
    {
        proof {
            assert(sv[k as int] == s@[k as int].deep());
        }
        if subtree_has(&s[k], u) {
            return true;
        }
        k += 1;
    }
    proof {
        assert(uset_from(sv, k as int) =~= Set::<u128>::empty());
    }
    false
}

/// Whether `t`'s subtree shares no identity with the trees of `s` from
/// index `from` on.
#[verifier::loop_isolation(false)]
pub fn disjoint_below(t: &Task, s: &Vec<Task>, from: usize) -> (r: bool)
    ensures
        r == uset(t.deep()).disjoint(uset_from(deep_from(s@, 0), from as int)),
    decreases *t,
{
    let ghost rest: Set<u128> = uset_from(deep_from(s@, 0), from as int);
    if forest_has(s, from, t.uuid) {
        proof {
            assert(uset(t.deep()).contains(t.uuid));
        }
        return false;
    }
    match &t.completion {
        Completion::Complete => {
            proof {
                assert(uset(t.deep()) =~= set![t.uuid]);
                assert forall|e: u128| uset(t.deep()).contains(e) implies !rest.contains(e) by {
                    assert(e == t.uuid);
                }
            }
            true
        },
        Completion::Incomplete(ch) => {
            let ghost chv: Seq<TaskV> = deep_from(ch@, 0);
            proof {
                lemma_deep_from_index(ch@, 0);
                assert(uset(t.deep()) == set![t.uuid].union(uset_from(chv, 0)));
            }
            let mut k: usize = 0;
            while k < ch.len()
                invariant
                    k <= ch.len(),
                    uset_from(chv, 0).disjoint(rest) == uset_from(chv, k as int).disjoint(rest),
                decreases ch.len() - k,
            {
                proof {
                    assert(decreases_to!(*t => t.completion));
                    assert(decreases_to!(t.completion => t.completion->Incomplete_0));
                    assert(t.completion->Incomplete_0 == *ch);
                    assert(decreases_to!(*ch => (*ch)[k as int]));
                    assert(decreases_to!(*t => (*ch)[k as int]));
                    assert(chv[k as int] == ch@[k as int].deep());
                }
                if !disjoint_below(&ch[k], s, from) {
                    proof {
                        let e = choose|e: u128|
                            uset(chv[k as int]).contains(e) && rest.contains(e);
                        assert(uset_from(chv, k as int).contains(e));
                        assert(!uset_from(chv, k as int).disjoint(rest));
                        assert(!uset_from(chv, 0).disjoint(rest));
                        let e2 = choose|e2: u128|
                            uset_from(chv, 0).contains(e2) && rest.contains(e2);
                        assert(uset(t.deep()).contains(e2));
                        assert(!uset(t.deep()).disjoint(rest));
                    }
                    return false;
                }
                proof {
                    assert(uset_from(chv, k as int) == uset(chv[k as int]).union(
                        uset_from(chv, k + 1),
                    ));
                    assert forall|e: u128| uset_from(chv, k as int).contains(e) implies (uset(
                        chv[k as int],
                    ).contains(e) || uset_from(chv, k + 1).contains(e)) by {}
                    assert(uset_from(chv, k as int).disjoint(rest) == uset_from(
                        chv,
                        k + 1,
                    ).disjoint(rest));
                }
                k += 1;
            }
            proof {
                assert(uset_from(chv, ch@.len() as int) =~= Set::<u128>::empty());
                assert(uset_from(chv, ch@.len() as int).disjoint(rest));
                assert forall|e: u128| uset(t.deep()).contains(e) implies !rest.contains(e) by {
                    if e != t.uuid {
                        assert(uset_from(chv, 0).contains(e));
                    }
                }
            }
            true
        },
    }
}

/// Executable check of identity uniqueness within one tree.
#[verifier::loop_isolation(false)]
pub fn uq_check_task(t: &Task) -> (r: bool)
    ensures
        r == uq(t.deep()),
    decreases *t,
{
    match &t.completion {
        Completion::Complete => true,
        Completion::Incomplete(ch) => {
            let ghost chv: Seq<TaskV> = deep_from(ch@, 0);
            proof {
                lemma_deep_from_index(ch@, 0);
                assert(uq(t.deep()) == (!uset_from(chv, 0).contains(t.uuid) && uq_from(chv, 0)));
            }
            if forest_has(ch, 0, t.uuid) {
                return false;
            }
            let mut k: usize = 0;
            while k < ch.len()
                invariant
                    k <= ch.len(),
                    uq_from(chv, 0) == uq_from(chv, k as int),
                decreases ch.len() - k,
            {
                proof {
                    assert(decreases_to!(*t => t.completion));
                    assert(decreases_to!(t.completion => t.completion->Incomplete_0));
                    assert(t.completion->Incomplete_0 == *ch);
                    assert(decreases_to!(*ch => (*ch)[k as int]));
                    assert(decreases_to!(*t => (*ch)[k as int]));
                    assert(chv[k as int] == ch@[k as int].deep());
                }
                if !uq_check_task(&ch[k]) {
                    return false;
                }
                if !disjoint_below(&ch[k], ch, k + 1) {
                    return false;
                }
                k += 1;
            }
            true
        },
    }
}

/// Executable check of identity uniqueness across the trees of `s` from
/// index `from` on.
#[verifier::loop_isolation(false)]
pub fn uq_check_from(s: &Vec<Task>, from: usize) -> (r: bool)
    ensures
        r == uq_from(deep_from(s@, 0), from as int),
{
    let ghost sv: Seq<TaskV> = deep_from(s@, 0);
    proof {
        lemma_deep_from_index(s@, 0);
    }
    let mut k: usize = from;
    while k < s.len()
        invariant
            from <= k,
            uq_from(sv, from as int) == uq_from(sv, k as int),
        decreases s.len() - k,
    {
        proof {
            assert(sv[k as int] == s@[k as int].deep());
        }
        if !uq_check_task(&s[k]) {
            return false;
        }
        if !disjoint_below(&s[k], s, k + 1) {
            return false;
        }
        k += 1;
    }
    true
}

} // verus!
