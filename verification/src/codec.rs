//! The persistence codec: the whole store as one byte document.
//!
//! The layout is length-prefixed and unambiguous: counts and lengths as
//! eight little-endian bytes, identities as sixteen, text as raw bytes
//! after a length, the completion union as one tag byte followed by the
//! children only when incomplete. [`save`] writes exactly the document
//! [`enc_list`] describes; [`load`] accepts an empty document as the
//! empty store, reconstructs every encoded store, and rejects anything
//! else as a persistence failure.

use vstd::prelude::*;

use crate::EngineError;
use crate::list::{ListV, TodoList};
use crate::task::{
    Completion, CompletionV, Priority, Tag, TagV, Task, TaskV, dates_ok, dates_ok_from, deep_from,
    lemma_deep_from_index, lemma_tags_from_index, tags_from, uq_from, uset, uset_from,
};

verus! {

broadcast use vstd::seq::axiom_seq_index_decreases, vstd::std_specs::vec::axiom_vec_index_decreases, vstd::std_specs::vec::axiom_vec_decreases_to_view;

/// Eight little-endian bytes.
pub open spec fn enc_u64(v: u64) -> Seq<u8> {
    seq![
        (v & 0xff) as u8,
        ((v >> 8) & 0xff) as u8,
        ((v >> 16) & 0xff) as u8,
        ((v >> 24) & 0xff) as u8,
        ((v >> 32) & 0xff) as u8,
        ((v >> 40) & 0xff) as u8,
        ((v >> 48) & 0xff) as u8,
        ((v >> 56) & 0xff) as u8,
    ]
}

/// Sixteen little-endian bytes.
pub open spec fn enc_u128(v: u128) -> Seq<u8> {
    enc_u64(v as u64) + enc_u64((v >> 64) as u64)
}

/// A length, then the raw bytes.
pub open spec fn enc_bytes(s: Seq<u8>) -> Seq<u8> {
    enc_u64(s.len() as u64) + s
}

/// One tag byte per priority.
pub open spec fn enc_priority(p: Priority) -> Seq<u8> {
    match p {
        Priority::High => seq![0u8],
        Priority::Medium => seq![1u8],
        Priority::Low => seq![2u8],
    }
}

/// Year as eight bytes, then month, day, hour and minute.
pub open spec fn enc_date(d: crate::date::DueDate) -> Seq<u8> {
    enc_u64(d.year as u64) + seq![d.month, d.day, d.hour, d.minute]
}

/// The identities of a tag list.
pub open spec fn enc_ids_from(s: Seq<u128>, i: int) -> Seq<u8>
    decreases s.len() - i,
{
    if 0 <= i < s.len() {
        enc_u128(s[i]) + enc_ids_from(s, i + 1)
    } else {
        Seq::empty()
    }
}

/// One node: identity, name, description, priority, due date, the
/// completion tag with the children only when incomplete, and the tag
/// identities.
pub open spec fn enc_task(t: TaskV) -> Seq<u8>
    decreases t, 1int,
{
    enc_u128(t.uuid) + enc_bytes(t.name) + enc_bytes(t.description) + enc_priority(t.priority)
        + enc_date(t.due_date) + (match t.completion {
        CompletionV::Complete => seq![1u8],
        CompletionV::Incomplete(ch) => seq![0u8] + enc_u64(ch.len() as u64) + enc_tasks_from(
            ch,
            0,
        ),
    }) + enc_u64(t.tags.len() as u64) + enc_ids_from(t.tags, 0)
}

/// The completion segment of a completion state's encoding.
pub open spec fn comp_seg_v(c: CompletionV) -> Seq<u8> {
    match c {
        CompletionV::Complete => seq![1u8],
        CompletionV::Incomplete(ch) => seq![0u8] + enc_u64(ch.len() as u64) + enc_tasks_from(
            ch,
            0,
        ),
    }
}

/// The completion segment of a node's encoding.
pub open spec fn comp_seg(t: TaskV) -> Seq<u8> {
    comp_seg_v(t.completion)
}

/// Offset of the completion segment within a node's encoding.
pub open spec fn o_comp(i: int, t: TaskV) -> int {
    i + 16 + enc_bytes(t.name).len() + enc_bytes(t.description).len() + 1 + 12
}

/// Offset of the tag segment within a node's encoding.
pub open spec fn o_tags(i: int, t: TaskV) -> int {
    o_comp(i, t) + comp_seg(t).len()
}

/// End of a node's encoding.
pub open spec fn o_end(i: int, t: TaskV) -> int {
    o_tags(i, t) + 8 + enc_ids_from(t.tags, 0).len()
}

/// Where each component of a node's encoding stands in the input.
pub proof fn lemma_task_layout(s: Seq<u8>, i: int, t: TaskV)
    requires
        0 <= i,
        i + enc_task(t).len() <= s.len(),
        s.subrange(i, i + enc_task(t).len()) == enc_task(t),
    ensures
        o_end(i, t) == i + enc_task(t).len(),
        s.subrange(i, i + 16) == enc_u128(t.uuid),
        s.subrange(i + 16, i + 16 + enc_bytes(t.name).len()) == enc_bytes(t.name),
        s.subrange(
            i + 16 + enc_bytes(t.name).len(),
            i + 16 + enc_bytes(t.name).len() + enc_bytes(t.description).len(),
        ) == enc_bytes(t.description),
        s.subrange(o_comp(i, t) - 13, o_comp(i, t) - 12) == enc_priority(t.priority),
        s.subrange(o_comp(i, t) - 12, o_comp(i, t)) == enc_date(t.due_date),
        s.subrange(o_comp(i, t), o_tags(i, t)) == comp_seg(t),
        s.subrange(o_tags(i, t), o_tags(i, t) + 8) == enc_u64(t.tags.len() as u64),
        s.subrange(o_tags(i, t) + 8, o_end(i, t)) == enc_ids_from(t.tags, 0),
{
    let c1 = enc_u128(t.uuid);
    let c2 = enc_bytes(t.name);
    let c3 = enc_bytes(t.description);
    let c4 = enc_priority(t.priority);
    let c5 = enc_date(t.due_date);
    let c6 = comp_seg(t);
    let c7 = enc_u64(t.tags.len() as u64);
    let c8 = enc_ids_from(t.tags, 0);
    assert(enc_task(t) == ((((((c1 + c2) + c3) + c4) + c5) + c6) + c7) + c8);
    lemma_peel(s, i, ((((((c1 + c2) + c3) + c4) + c5) + c6) + c7), c8);
    lemma_peel(s, i, (((((c1 + c2) + c3) + c4) + c5) + c6), c7);
    lemma_peel(s, i, ((((c1 + c2) + c3) + c4) + c5), c6);
    lemma_peel(s, i, (((c1 + c2) + c3) + c4), c5);
    lemma_peel(s, i, ((c1 + c2) + c3), c4);
    lemma_peel(s, i, (c1 + c2), c3);
    lemma_peel(s, i, c1, c2);
}

pub open spec fn enc_tasks_from(s: Seq<TaskV>, i: int) -> Seq<u8>
    decreases s, s.len() - i,
{
    if 0 <= i < s.len() {
        enc_task(s[i]) + enc_tasks_from(s, i + 1)
    } else {
        Seq::empty()
    }
}

/// One tag entity.
pub open spec fn enc_tag(g: TagV) -> Seq<u8> {
    enc_u128(g.uuid) + enc_bytes(g.name) + enc_bytes(g.description)
}

pub open spec fn enc_tags_from(s: Seq<TagV>, i: int) -> Seq<u8>
    decreases s.len() - i,
{
    if 0 <= i < s.len() {
        enc_tag(s[i]) + enc_tags_from(s, i + 1)
    } else {
        Seq::empty()
    }
}

/// The whole document: the task count and forest, then the tag count
/// and tags.
pub open spec fn enc_list(l: ListV) -> Seq<u8> {
    enc_u64(l.tasks.len() as u64) + enc_tasks_from(l.tasks, 0) + enc_u64(l.tags.len() as u64)
        + enc_tags_from(l.tags, 0)
}

fn push_u64(out: &mut Vec<u8>, v: u64)
    ensures
        final(out)@ == old(out)@ + enc_u64(v),
{
    out.push((v & 0xff) as u8);
    out.push(((v >> 8) & 0xff) as u8);
    out.push(((v >> 16) & 0xff) as u8);
    out.push(((v >> 24) & 0xff) as u8);
    out.push(((v >> 32) & 0xff) as u8);
    out.push(((v >> 40) & 0xff) as u8);
    out.push(((v >> 48) & 0xff) as u8);
    out.push(((v >> 56) & 0xff) as u8);
    proof {
        assert(out@ =~= old(out)@ + enc_u64(v));
    }
}

fn push_u128(out: &mut Vec<u8>, v: u128)
    ensures
        final(out)@ == old(out)@ + enc_u128(v),
{
    push_u64(out, v as u64);
    push_u64(out, (v >> 64) as u64);
    proof {
        assert(out@ =~= old(out)@ + enc_u128(v));
    }
}

fn push_bytes(out: &mut Vec<u8>, s: &Vec<u8>)
    ensures
        final(out)@ == old(out)@ + enc_bytes(s@),
{
    push_u64(out, s.len() as u64);
    let ghost mid: Seq<u8> = out@;
    let mut k: usize = 0;
    while k < s.len()
        invariant
            k <= s.len(),
            out@ == mid + s@.take(k as int),
        decreases s.len() - k,
    {
        out.push(s[k]);
        proof {
            assert(out@ =~= mid + s@.take(k + 1));
        }
        k += 1;
    }
    proof {
        assert(s@.take(s@.len() as int) =~= s@);
        assert(out@ =~= old(out)@ + enc_bytes(s@));
    }
}

/// Writes one node.
#[verifier::loop_isolation(false)]
#[verifier::rlimit(60)]
fn save_task(out: &mut Vec<u8>, t: &Task)
    requires
        dates_ok(t.deep()),
    ensures
        final(out)@ == old(out)@ + enc_task(t.deep()),
    decreases *t,
{
    push_u128(out, t.uuid);
    push_bytes(out, &t.name);
    push_bytes(out, &t.description);
    match t.priority {
        Priority::High => out.push(0u8),
        Priority::Medium => out.push(1u8),
        Priority::Low => out.push(2u8),
    }
    push_u64(out, t.due_date.year as u64);
    out.push(t.due_date.month);
    out.push(t.due_date.day);
    out.push(t.due_date.hour);
    out.push(t.due_date.minute);
    match &t.completion {
        Completion::Complete => {
            out.push(1u8);
        },
        Completion::Incomplete(ch) => {
            out.push(0u8);
            push_u64(out, ch.len() as u64);
            let ghost chv: Seq<TaskV> = deep_from(ch@, 0);
            let ghost mid: Seq<u8> = out@;
            proof {
                lemma_deep_from_index(ch@, 0);
            }
            let mut k: usize = 0;
            while k < ch.len()
                invariant
                    k <= ch.len(),
                    dates_ok_from(chv, k as int),
                    out@ + enc_tasks_from(chv, k as int) == mid + enc_tasks_from(chv, 0),
                decreases ch.len() - k,
            {
                proof {
                    assert(decreases_to!(*t => t.completion));
                    assert(decreases_to!(t.completion => t.completion->Incomplete_0));
                    assert(t.completion->Incomplete_0 == *ch);
                    assert(decreases_to!(*ch => (*ch)[k as int]));
                    assert(decreases_to!(*t => (*ch)[k as int]));
                    assert(chv[k as int] == ch@[k as int].deep());
                }
                save_task(out, &ch[k]);
                proof {
                    assert(out@ + enc_tasks_from(chv, k + 1) =~= mid + enc_tasks_from(chv, 0));
                }
                k += 1;
            }
            proof {
                assert(enc_tasks_from(chv, ch@.len() as int) =~= Seq::<u8>::empty());
                assert(out@ =~= mid + enc_tasks_from(chv, 0));
            }
        },
    }
    push_u64(out, t.tags.len() as u64);
    let ghost idv: Seq<u128> = t.tags@;
    let ghost mid2: Seq<u8> = out@;
    let mut k: usize = 0;
    while k < t.tags.len()
        invariant
            k <= t.tags.len(),
            out@ + enc_ids_from(idv, k as int) == mid2 + enc_ids_from(idv, 0),
        decreases t.tags.len() - k,
    {
        push_u128(out, t.tags[k]);
        proof {
            assert(out@ + enc_ids_from(idv, k + 1) =~= mid2 + enc_ids_from(idv, 0));
        }
        k += 1;
    }
    proof {
        assert(enc_ids_from(idv, idv.len() as int) =~= Seq::<u8>::empty());
        assert(out@ =~= mid2 + enc_ids_from(idv, 0));
        assert(out@ =~= old(out)@ + enc_task(t.deep()));
    }
}

/// Writes the whole store.
#[verifier::loop_isolation(false)]
pub fn save(list: &TodoList) -> (r: Vec<u8>)
    requires
        dates_ok_from(list@.tasks, 0),
    ensures
        r@ == enc_list(list@),
{
    let ghost sv: Seq<TaskV> = list@.tasks;
    let ghost gv: Seq<TagV> = list@.tags;
    proof {
        lemma_deep_from_index(list.tasks@, 0);
        lemma_tags_from_index(list.tags@, 0);
    }
    let mut out: Vec<u8> = Vec::new();
    push_u64(&mut out, list.tasks.len() as u64);
    let ghost mid: Seq<u8> = out@;
    let mut k: usize = 0;
    while k < list.tasks.len()
        invariant
            k <= list.tasks.len(),
            dates_ok_from(sv, k as int),
            out@ + enc_tasks_from(sv, k as int) == mid + enc_tasks_from(sv, 0),
        decreases list.tasks.len() - k,
    {
        proof {
            assert(sv[k as int] == list.tasks@[k as int].deep());
            assert(dates_ok(sv[k as int]));
        }
        save_task(&mut out, &list.tasks[k]);
        proof {
            assert(out@ + enc_tasks_from(sv, k + 1) =~= mid + enc_tasks_from(sv, 0));
        }
        k += 1;
    }
    proof {
        assert(enc_tasks_from(sv, sv.len() as int) =~= Seq::<u8>::empty());
        assert(out@ =~= mid + enc_tasks_from(sv, 0));
    }
    push_u64(&mut out, list.tags.len() as u64);
    let ghost mid2: Seq<u8> = out@;
    let mut k2: usize = 0;
    while k2 < list.tags.len()
        invariant
            k2 <= list.tags.len(),
            out@ + enc_tags_from(gv, k2 as int) == mid2 + enc_tags_from(gv, 0),
        decreases list.tags.len() - k2,
    {
        let g = &list.tags[k2];
        proof {
            assert(gv[k2 as int] == list.tags@[k2 as int]@);
        }
        push_u128(&mut out, g.uuid);
        push_bytes(&mut out, &g.name);
        push_bytes(&mut out, &g.description);
        proof {
            assert(out@ + enc_tags_from(gv, k2 + 1) =~= mid2 + enc_tags_from(gv, 0));
        }
        k2 += 1;
    }
    proof {
        assert(enc_tags_from(gv, gv.len() as int) =~= Seq::<u8>::empty());
        assert(out@ =~= mid2 + enc_tags_from(gv, 0));
        assert(out@ =~= enc_list(list@));
    }
    out
}


/// Little-endian bytes determine the value.
pub proof fn lemma_enc_u64_inj(a: u64, b: u64)
    requires
        enc_u64(a) == enc_u64(b),
    ensures
        a == b,
{
    assert(enc_u64(a)[0] == enc_u64(b)[0]);
    assert(enc_u64(a)[1] == enc_u64(b)[1]);
    assert(enc_u64(a)[2] == enc_u64(b)[2]);
    assert(enc_u64(a)[3] == enc_u64(b)[3]);
    assert(enc_u64(a)[4] == enc_u64(b)[4]);
    assert(enc_u64(a)[5] == enc_u64(b)[5]);
    assert(enc_u64(a)[6] == enc_u64(b)[6]);
    assert(enc_u64(a)[7] == enc_u64(b)[7]);
    assert(a == b) by (bit_vector)
        requires
            (a & 0xff) as u8 == (b & 0xff) as u8,
            ((a >> 8) & 0xff) as u8 == ((b >> 8) & 0xff) as u8,
            ((a >> 16) & 0xff) as u8 == ((b >> 16) & 0xff) as u8,
            ((a >> 24) & 0xff) as u8 == ((b >> 24) & 0xff) as u8,
            ((a >> 32) & 0xff) as u8 == ((b >> 32) & 0xff) as u8,
            ((a >> 40) & 0xff) as u8 == ((b >> 40) & 0xff) as u8,
            ((a >> 48) & 0xff) as u8 == ((b >> 48) & 0xff) as u8,
            ((a >> 56) & 0xff) as u8 == ((b >> 56) & 0xff) as u8,
    ;
}

pub proof fn lemma_enc_u128_inj(a: u128, b: u128)
    requires
        enc_u128(a) == enc_u128(b),
    ensures
        a == b,
{
    assert(enc_u64(a as u64) =~= enc_u128(a).subrange(0, 8));
    assert(enc_u64(b as u64) =~= enc_u128(b).subrange(0, 8));
    assert(enc_u64((a >> 64) as u64) =~= enc_u128(a).subrange(8, 16));
    assert(enc_u64((b >> 64) as u64) =~= enc_u128(b).subrange(8, 16));
    lemma_enc_u64_inj(a as u64, b as u64);
    lemma_enc_u64_inj((a >> 64) as u64, (b >> 64) as u64);
    assert(a == b) by (bit_vector)
        requires
            a as u64 == b as u64,
            (a >> 64) as u64 == (b >> 64) as u64,
    ;
}

/// Splits one known segment of the input into its two parts.
pub proof fn lemma_peel(s: Seq<u8>, i: int, a: Seq<u8>, b: Seq<u8>)
    requires
        0 <= i,
        i + a.len() + b.len() <= s.len(),
        s.subrange(i, i + a.len() + b.len()) == a + b,
    ensures
        s.subrange(i, i + a.len()) == a,
        s.subrange(i + a.len(), i + a.len() + b.len()) == b,
{
    assert forall|k: int| 0 <= k < a.len() implies s.subrange(i, i + a.len())[k] == a[k] by {
        assert(s.subrange(i, i + a.len() + b.len())[k] == (a + b)[k]);
    }
    assert(s.subrange(i, i + a.len()) =~= a);
    assert forall|k: int| 0 <= k < b.len() implies s.subrange(
        i + a.len(),
        i + a.len() + b.len(),
    )[k] == b[k] by {
        assert(s.subrange(i, i + a.len() + b.len())[a.len() + k] == (a + b)[a.len() + k]);
        assert((a + b)[a.len() + k] == b[k]);
        assert(s.subrange(i, i + a.len() + b.len())[a.len() + k] == s[i + a.len() + k]);
        assert(s.subrange(i + a.len(), i + a.len() + b.len())[k] == s[i + a.len() + k]);
    }
    assert(s.subrange(i + a.len(), i + a.len() + b.len()) =~= b);
}

fn parse_u64(input: &Vec<u8>, i: usize) -> (r: Option<(u64, usize)>)
    requires
        i <= input@.len(),
    ensures
        match r {
            Some(p) => p.1 == i + 8 && i + 8 <= input@.len() && input@.subrange(
                i as int,
                i as int + 8,
            ) == enc_u64(p.0),
            None => input@.len() < i + 8,
        },
        forall|v2: u64| #![trigger enc_u64(v2)]
            (i + 8 <= input@.len() && input@.subrange(i as int, i as int + 8) == enc_u64(v2))
                ==> r == Some((v2, (i + 8) as usize)),
{
    if input.len() - i < 8 {
        return None;
    }
    let b0 = input[i];
    let b1 = input[i + 1];
    let b2 = input[i + 2];
    let b3 = input[i + 3];
    let b4 = input[i + 4];
    let b5 = input[i + 5];
    let b6 = input[i + 6];
    let b7 = input[i + 7];
    let v: u64 = (b0 as u64) | ((b1 as u64) << 8) | ((b2 as u64) << 16) | ((b3 as u64) << 24) | (
    (b4 as u64) << 32) | ((b5 as u64) << 40) | ((b6 as u64) << 48) | ((b7 as u64) << 56);
    proof {
        assert({
            &&& (v & 0xff) as u8 == b0
            &&& ((v >> 8) & 0xff) as u8 == b1
            &&& ((v >> 16) & 0xff) as u8 == b2
            &&& ((v >> 24) & 0xff) as u8 == b3
            &&& ((v >> 32) & 0xff) as u8 == b4
            &&& ((v >> 40) & 0xff) as u8 == b5
            &&& ((v >> 48) & 0xff) as u8 == b6
            &&& ((v >> 56) & 0xff) as u8 == b7
        }) by (bit_vector)
            requires
                v == (b0 as u64) | ((b1 as u64) << 8) | ((b2 as u64) << 16) | ((b3 as u64) << 24)
                    | ((b4 as u64) << 32) | ((b5 as u64) << 40) | ((b6 as u64) << 48) | ((
                b7 as u64) << 56),
        ;
        assert(input@.subrange(i as int, i as int + 8) =~= enc_u64(v));
        assert forall|v2: u64| #![trigger enc_u64(v2)]
            (i + 8 <= input@.len() && input@.subrange(i as int, i as int + 8) == enc_u64(
                v2,
            )) implies Some((v, (i + 8) as usize)) == Some((v2, (i + 8) as usize)) by {
            lemma_enc_u64_inj(v, v2);
        }
    }
    Some((v, i + 8))
}

fn parse_u128(input: &Vec<u8>, i: usize) -> (r: Option<(u128, usize)>)
    requires
        i <= input@.len(),
    ensures
        match r {
            Some(p) => p.1 == i + 16 && i + 16 <= input@.len() && input@.subrange(
                i as int,
                i as int + 16,
            ) == enc_u128(p.0),
            None => input@.len() < i + 16,
        },
        forall|v2: u128| #![trigger enc_u128(v2)]
            (i + 16 <= input@.len() && input@.subrange(i as int, i as int + 16) == enc_u128(v2))
                ==> r == Some((v2, (i + 16) as usize)),
{
    let lo = match parse_u64(input, i) {
        Some(p) => p,
        None => {
            return None;
        },
    };
    let hi = match parse_u64(input, lo.1) {
        Some(p) => p,
        None => {
            return None;
        },
    };
    let lo0: u64 = lo.0;
    let hi0: u64 = hi.0;
    let v: u128 = (lo0 as u128) | ((hi0 as u128) << 64);
    proof {
        assert({
            &&& v as u64 == lo0
            &&& (v >> 64) as u64 == hi0
        }) by (bit_vector)
            requires
                v == (lo0 as u128) | ((hi0 as u128) << 64),
        ;
        assert(input@.subrange(i as int, i as int + 16) =~= enc_u128(v));
        assert forall|v2: u128| #![trigger enc_u128(v2)]
            (i + 16 <= input@.len() && input@.subrange(i as int, i as int + 16) == enc_u128(
                v2,
            )) implies Some((v, (i + 16) as usize)) == Some((v2, (i + 16) as usize)) by {
            lemma_enc_u128_inj(v, v2);
        }
    }
    Some((v, i + 16))
}


fn parse_bytes(input: &Vec<u8>, i: usize) -> (r: Option<(Vec<u8>, usize)>)
    requires
        i <= input@.len(),
    ensures
        match r {
            Some(p) => i < p.1 <= input@.len() && p.1 == i + 8 + p.0@.len() && input@.subrange(
                i as int,
                p.1 as int,
            ) == enc_bytes(p.0@),
            None => true,
        },
        forall|s2: Seq<u8>| #![trigger enc_bytes(s2)]
            (i + 8 + s2.len() <= input@.len() && input@.subrange(
                i as int,
                i as int + 8 + s2.len(),
            ) == enc_bytes(s2)) ==> (match r {
                Some(p) => p.0@ == s2 && p.1 == i + 8 + s2.len(),
                None => false,
            }),
{
    let n = match parse_u64(input, i) {
        Some(p) => p,
        None => {
            proof {
                assert forall|s2: Seq<u8>| #![trigger enc_bytes(s2)]
                    !(i + 8 + s2.len() <= input@.len() && input@.subrange(
                        i as int,
                        i as int + 8 + s2.len(),
                    ) == enc_bytes(s2)) by {
                    if i + 8 + s2.len() <= input@.len() && input@.subrange(
                        i as int,
                        i as int + 8 + s2.len(),
                    ) == enc_bytes(s2) {
                        lemma_peel(input@, i as int, enc_u64(s2.len() as u64), s2);
                    }
                }
            }
            return None;
        },
    };
    let j = n.1;
    if n.0 > (input.len() - j) as u64 {
        proof {
            assert forall|s2: Seq<u8>| #![trigger enc_bytes(s2)]
                !(i + 8 + s2.len() <= input@.len() && input@.subrange(
                    i as int,
                    i as int + 8 + s2.len(),
                ) == enc_bytes(s2)) by {
                if i + 8 + s2.len() <= input@.len() && input@.subrange(
                    i as int,
                    i as int + 8 + s2.len(),
                ) == enc_bytes(s2) {
                    lemma_peel(input@, i as int, enc_u64(s2.len() as u64), s2);
                }
            }
        }
        return None;
    }
    let cnt: usize = n.0 as usize;
    let mut out: Vec<u8> = Vec::new();
    let mut k: usize = 0;
    while k < cnt
        invariant
            k <= cnt,
            j + cnt <= input@.len(),
            input@.len() <= usize::MAX,
            out@ == input@.subrange(j as int, j as int + k),
        decreases cnt - k,
    {
        proof {
            assert(j + k < input@.len());
        }
        let idx: usize = j + k;
        out.push(input[idx]);
        proof {
            assert(out@ =~= input@.subrange(j as int, j as int + k + 1));
        }
        k += 1;
    }
    proof {
        assert(input@.subrange(i as int, (j + cnt) as int) =~= enc_u64(n.0) + out@);
        assert(enc_bytes(out@) == enc_u64(out@.len() as u64) + out@);
        assert forall|s2: Seq<u8>| #![trigger enc_bytes(s2)]
            (i + 8 + s2.len() <= input@.len() && input@.subrange(
                i as int,
                i as int + 8 + s2.len(),
            ) == enc_bytes(s2)) implies (out@ == s2 && j + cnt == i + 8 + s2.len()) by {
            lemma_peel(input@, i as int, enc_u64(s2.len() as u64), s2);
            assert(s2.len() <= usize::MAX);
            assert(n.0 == s2.len() as u64);
            assert(cnt == s2.len());
            assert(out@ =~= s2);
        }
    }
    Some((out, j + cnt))
}

fn parse_priority(input: &Vec<u8>, i: usize) -> (r: Option<(Priority, usize)>)
    requires
        i <= input@.len(),
    ensures
        match r {
            Some(p) => p.1 == i + 1 && i + 1 <= input@.len() && input@.subrange(
                i as int,
                i as int + 1,
            ) == enc_priority(p.0),
            None => true,
        },
        forall|p2: Priority| #![trigger enc_priority(p2)]
            (i + 1 <= input@.len() && input@.subrange(i as int, i as int + 1) == enc_priority(p2))
                ==> r == Some((p2, (i + 1) as usize)),
{
    if i >= input.len() {
        return None;
    }
    let b = input[i];
    proof {
        assert(input@.subrange(i as int, i as int + 1) =~= seq![input@[i as int]]);
        assert forall|p2: Priority| #![trigger enc_priority(p2)] enc_priority(p2)[0] == 0
            || enc_priority(p2)[0] == 1 || enc_priority(p2)[0] == 2 by {}
    }
    if b == 0 {
        proof {
            assert(input@.subrange(i as int, i as int + 1) =~= enc_priority(Priority::High));
        }
        Some((Priority::High, i + 1))
    } else if b == 1 {
        proof {
            assert(input@.subrange(i as int, i as int + 1) =~= enc_priority(Priority::Medium));
        }
        Some((Priority::Medium, i + 1))
    } else if b == 2 {
        proof {
            assert(input@.subrange(i as int, i as int + 1) =~= enc_priority(Priority::Low));
        }
        Some((Priority::Low, i + 1))
    } else {
        None
    }
}

fn parse_date(input: &Vec<u8>, i: usize) -> (r: Option<(crate::date::DueDate, usize)>)
    requires
        i <= input@.len(),
    ensures
        match r {
            Some(p) => p.1 == i + 12 && i + 12 <= input@.len() && input@.subrange(
                i as int,
                i as int + 12,
            ) == enc_date(p.0) && p.0.wf(),
            None => true,
        },
        forall|d2: crate::date::DueDate| #![trigger enc_date(d2)]
            (d2.wf() && i + 12 <= input@.len() && input@.subrange(i as int, i as int + 12)
                == enc_date(d2)) ==> r == Some((d2, (i + 12) as usize)),
{
    proof {
        assert forall|d2: crate::date::DueDate| #![trigger enc_date(d2)]
            (d2.wf() && i + 12 <= input@.len() && input@.subrange(i as int, i as int + 12)
                == enc_date(d2)) implies (input@.subrange(i as int, i as int + 8) == enc_u64(
            d2.year as u64,
        ) && input@.subrange(i as int + 8, i as int + 12) == seq![
            d2.month,
            d2.day,
            d2.hour,
            d2.minute,
        ]) by {
            lemma_peel(
                input@,
                i as int,
                enc_u64(d2.year as u64),
                seq![d2.month, d2.day, d2.hour, d2.minute],
            );
        }
    }
    let yp = match parse_u64(input, i) {
        Some(p) => p,
        None => {
            return None;
        },
    };
    if yp.0 > 9999 {
        return None;
    }
    if input.len() - yp.1 < 4 {
        return None;
    }
    let dd = crate::date::DueDate {
        year: yp.0 as i32,
        month: input[yp.1],
        day: input[yp.1 + 1],
        hour: input[yp.1 + 2],
        minute: input[yp.1 + 3],
    };
    if !dd.is_wf() {
        return None;
    }
    proof {
        assert(input@.subrange(i as int, i as int + 12) =~= enc_u64(yp.0) + seq![
            dd.month,
            dd.day,
            dd.hour,
            dd.minute,
        ]);
        assert(dd.year as u64 == yp.0);
        assert forall|d2: crate::date::DueDate| #![trigger enc_date(d2)]
            (d2.wf() && i + 12 <= input@.len() && input@.subrange(i as int, i as int + 12)
                == enc_date(d2)) implies dd == d2 by {
            lemma_enc_u64_inj(yp.0, d2.year as u64);
            assert(seq![dd.month, dd.day, dd.hour, dd.minute] =~= seq![
                d2.month,
                d2.day,
                d2.hour,
                d2.minute,
            ]);
            assert(dd.month == d2.month && dd.day == d2.day && dd.hour == d2.hour && dd.minute
                == d2.minute);
        }
    }
    Some((dd, yp.1 + 4))
}


/// Joins two adjacent known segments of the input.
pub proof fn lemma_join(s: Seq<u8>, i: int, a: Seq<u8>, b: Seq<u8>)
    requires
        0 <= i,
        i + a.len() + b.len() <= s.len(),
        s.subrange(i, i + a.len()) == a,
        s.subrange(i + a.len(), i + a.len() + b.len()) == b,
    ensures
        s.subrange(i, i + a.len() + b.len()) == a + b,
{
    assert forall|k: int| 0 <= k < a.len() + b.len() implies s.subrange(
        i,
        i + a.len() + b.len(),
    )[k] == (a + b)[k] by {
        if k < a.len() {
            assert(s.subrange(i, i + a.len())[k] == a[k]);
        } else {
            assert(s.subrange(i + a.len(), i + a.len() + b.len())[k - a.len()] == b[k - a.len()]);
        }
    }
    assert(s.subrange(i, i + a.len() + b.len()) =~= a + b);
}

pub proof fn lemma_enc_tasks_push(s: Seq<TaskV>, x: TaskV, i: int)
    requires
        0 <= i <= s.len(),
    ensures
        enc_tasks_from(s.push(x), i) == enc_tasks_from(s, i) + enc_task(x),
    decreases s.len() - i,
{
    if i < s.len() {
        assert(s.push(x)[i] == s[i]);
        lemma_enc_tasks_push(s, x, i + 1);
        assert(enc_tasks_from(s.push(x), i) =~= enc_tasks_from(s, i) + enc_task(x));
    } else {
        assert(s.push(x)[i] == x);
        assert(enc_tasks_from(s.push(x), i + 1) =~= Seq::<u8>::empty());
        assert(enc_tasks_from(s.push(x), i) =~= enc_tasks_from(s, i) + enc_task(x));
    }
}

pub proof fn lemma_enc_ids_push(s: Seq<u128>, x: u128, i: int)
    requires
        0 <= i <= s.len(),
    ensures
        enc_ids_from(s.push(x), i) == enc_ids_from(s, i) + enc_u128(x),
    decreases s.len() - i,
{
    if i < s.len() {
        assert(s.push(x)[i] == s[i]);
        lemma_enc_ids_push(s, x, i + 1);
        assert(enc_ids_from(s.push(x), i) =~= enc_ids_from(s, i) + enc_u128(x));
    } else {
        assert(s.push(x)[i] == x);
        assert(enc_ids_from(s.push(x), i + 1) =~= Seq::<u8>::empty());
        assert(enc_ids_from(s.push(x), i) =~= enc_ids_from(s, i) + enc_u128(x));
    }
}

pub proof fn lemma_dates_at(s: Seq<TaskV>, i: int, k: int)
    requires
        dates_ok_from(s, i),
        0 <= i <= k < s.len(),
    ensures
        dates_ok(s[k]),
    decreases k - i,
{
    if i < k {
        lemma_dates_at(s, i + 1, k);
    }
}

/// The hypothesis that the encoding of node `tv` stands at position `i`.
pub open spec fn hyp_task(s: Seq<u8>, i: int, tv: TaskV) -> bool {
    &&& dates_ok(tv)
    &&& i + enc_task(tv).len() <= s.len()
    &&& s.subrange(i, i + enc_task(tv).len()) == enc_task(tv)
}


/// Reads `n64` consecutive nodes. Returns exactly the child list whose
/// encoding stands at `start`, wherever one stands there.
#[verifier::loop_isolation(false)]
#[verifier::rlimit(100)]
fn parse_children(input: &Vec<u8>, start: usize, n64: u64) -> (r: Option<(Vec<Task>, usize)>)
    requires
        start <= input@.len(),
    ensures
        match r {
            Some(p) => {
                &&& start <= p.1 <= input@.len()
                &&& p.1 as int == start + enc_tasks_from(deep_from(p.0@, 0), 0).len()
                &&& input@.subrange(start as int, p.1 as int) == enc_tasks_from(
                    deep_from(p.0@, 0),
                    0,
                )
                &&& dates_ok_from(deep_from(p.0@, 0), 0)
                &&& p.0@.len() == n64
            },
            None => true,
        },
        forall|ch: Seq<TaskV>| #![trigger enc_tasks_from(ch, 0)]
            (dates_ok_from(ch, 0) && ch.len() == n64 && start + enc_tasks_from(ch, 0).len()
                <= input@.len() && input@.subrange(
                start as int,
                start as int + enc_tasks_from(ch, 0).len(),
            ) == enc_tasks_from(ch, 0)) ==> (match r {
                Some(p) => deep_from(p.0@, 0) == ch && p.1 as int == start + enc_tasks_from(
                    ch,
                    0,
                ).len(),
                None => false,
            }),
    decreases input@.len() - start, 1int,
{
    let mut cvec: Vec<Task> = Vec::new();
    let mut c: u64 = 0;
    let mut cur: usize = start;
    while c < n64
        invariant
            c == cvec@.len(),
            c <= n64,
            start <= cur as int <= input@.len(),
            cur as int == start + enc_tasks_from(deep_from(cvec@, 0), 0).len(),
            input@.subrange(start as int, cur as int) == enc_tasks_from(deep_from(cvec@, 0), 0),
            dates_ok_from(deep_from(cvec@, 0), 0),
            forall|ch: Seq<TaskV>| #![trigger enc_tasks_from(ch, 0)]
                (dates_ok_from(ch, 0) && ch.len() == n64 && start + enc_tasks_from(ch, 0).len()
                    <= input@.len() && input@.subrange(
                    start as int,
                    start as int + enc_tasks_from(ch, 0).len(),
                ) == enc_tasks_from(ch, 0)) ==> {
                    &&& deep_from(cvec@, 0) == ch.take(c as int)
                    &&& cur as int + enc_tasks_from(ch, c as int).len() == start
                        + enc_tasks_from(ch, 0).len()
                    &&& input@.subrange(
                        cur as int,
                        start as int + enc_tasks_from(ch, 0).len(),
                    ) == enc_tasks_from(ch, c as int)
                },
        decreases n64 - c,
    {
        let child = match parse_task(input, cur) {
            Some(p) => p,
            None => {
                proof {
                    assert forall|ch: Seq<TaskV>| #![trigger enc_tasks_from(ch, 0)]
                        !(dates_ok_from(ch, 0) && ch.len() == n64 && start + enc_tasks_from(
                            ch,
                            0,
                        ).len() <= input@.len() && input@.subrange(
                            start as int,
                            start as int + enc_tasks_from(ch, 0).len(),
                        ) == enc_tasks_from(ch, 0)) by {
                        if dates_ok_from(ch, 0) && ch.len() == n64 && start + enc_tasks_from(
                            ch,
                            0,
                        ).len() <= input@.len() && input@.subrange(
                            start as int,
                            start as int + enc_tasks_from(ch, 0).len(),
                        ) == enc_tasks_from(ch, 0) {
                            lemma_dates_at(ch, 0, c as int);
                            lemma_peel(
                                input@,
                                cur as int,
                                enc_task(ch[c as int]),
                                enc_tasks_from(ch, c as int + 1),
                            );
                            assert(hyp_task(input@, cur as int, ch[c as int]));
                        }
                    }
                }
                return None;
            },
        };
        let ghost old_pv: Seq<TaskV> = deep_from(cvec@, 0);
        let ghost old_cvec: Seq<Task> = cvec@;
        let ghost old_cur: int = cur as int;
        cvec.push(child.0);
        proof {
            crate::ops::lemma_deep_from_push(old_cvec, child.0, 0);
            lemma_enc_tasks_push(old_pv, child.0.deep(), 0);
            lemma_join(input@, start as int, enc_tasks_from(old_pv, 0), enc_task(child.0.deep()));
            crate::ops::lemma_push_facts(old_pv, child.0.deep(), 0, 0u128);
            assert(deep_from(cvec@, 0) =~= old_pv.push(child.0.deep()));
            assert forall|ch: Seq<TaskV>| #![trigger enc_tasks_from(ch, 0)]
                (dates_ok_from(ch, 0) && ch.len() == n64 && start + enc_tasks_from(ch, 0).len()
                    <= input@.len() && input@.subrange(
                    start as int,
                    start as int + enc_tasks_from(ch, 0).len(),
                ) == enc_tasks_from(ch, 0)) implies {
                &&& deep_from(cvec@, 0) == ch.take(c as int + 1)
                &&& child.1 as int + enc_tasks_from(ch, c as int + 1).len() == start
                    + enc_tasks_from(ch, 0).len()
                &&& input@.subrange(
                    child.1 as int,
                    start as int + enc_tasks_from(ch, 0).len(),
                ) == enc_tasks_from(ch, c as int + 1)
            } by {
                lemma_dates_at(ch, 0, c as int);
                lemma_peel(
                    input@,
                    old_cur,
                    enc_task(ch[c as int]),
                    enc_tasks_from(ch, c as int + 1),
                );
                assert(hyp_task(input@, old_cur, ch[c as int]));
                assert(child.0.deep() == ch[c as int]);
                assert(ch.take(c as int + 1) =~= ch.take(c as int).push(ch[c as int]));
            }
        }
        cur = child.1;
        c = c + 1;
    }
    proof {
        assert forall|ch: Seq<TaskV>| #![trigger enc_tasks_from(ch, 0)]
            (dates_ok_from(ch, 0) && ch.len() == n64 && start + enc_tasks_from(ch, 0).len()
                <= input@.len() && input@.subrange(
                start as int,
                start as int + enc_tasks_from(ch, 0).len(),
            ) == enc_tasks_from(ch, 0)) implies (deep_from(cvec@, 0) == ch && cur as int == start
            + enc_tasks_from(ch, 0).len()) by {
            assert(ch.take(c as int) =~= ch);
        }
    }
    Some((cvec, cur))
}

/// Reads `m64` consecutive identities.
#[verifier::loop_isolation(false)]
fn parse_ids(input: &Vec<u8>, start: usize, m64: u64) -> (r: Option<(Vec<u128>, usize)>)
    requires
        start <= input@.len(),
    ensures
        match r {
            Some(p) => {
                &&& start <= p.1 <= input@.len()
                &&& p.1 as int == start + enc_ids_from(p.0@, 0).len()
                &&& input@.subrange(start as int, p.1 as int) == enc_ids_from(p.0@, 0)
                &&& p.0@.len() == m64
            },
            None => true,
        },
        forall|ts: Seq<u128>| #![trigger enc_ids_from(ts, 0)]
            (ts.len() == m64 && start + enc_ids_from(ts, 0).len() <= input@.len()
                && input@.subrange(start as int, start as int + enc_ids_from(ts, 0).len())
                == enc_ids_from(ts, 0)) ==> (match r {
                Some(p) => p.0@ == ts && p.1 as int == start + enc_ids_from(ts, 0).len(),
                None => false,
            }),
{
    let mut ids: Vec<u128> = Vec::new();
    let mut c: u64 = 0;
    let mut cur: usize = start;
    while c < m64
        invariant
            c == ids@.len(),
            c <= m64,
            start <= cur as int <= input@.len(),
            cur as int == start + enc_ids_from(ids@, 0).len(),
            input@.subrange(start as int, cur as int) == enc_ids_from(ids@, 0),
            forall|ts: Seq<u128>| #![trigger enc_ids_from(ts, 0)]
                (ts.len() == m64 && start + enc_ids_from(ts, 0).len() <= input@.len()
                    && input@.subrange(start as int, start as int + enc_ids_from(ts, 0).len())
                    == enc_ids_from(ts, 0)) ==> {
                    &&& ids@ == ts.take(c as int)
                    &&& cur as int + enc_ids_from(ts, c as int).len() == start + enc_ids_from(
                        ts,
                        0,
                    ).len()
                    &&& input@.subrange(cur as int, start as int + enc_ids_from(ts, 0).len())
                        == enc_ids_from(ts, c as int)
                },
        decreases m64 - c,
    {
        let idp = match parse_u128(input, cur) {
            Some(p) => p,
            None => {
                proof {
                    assert forall|ts: Seq<u128>| #![trigger enc_ids_from(ts, 0)]
                        !(ts.len() == m64 && start + enc_ids_from(ts, 0).len() <= input@.len()
                            && input@.subrange(
                            start as int,
                            start as int + enc_ids_from(ts, 0).len(),
                        ) == enc_ids_from(ts, 0)) by {
                        if ts.len() == m64 && start + enc_ids_from(ts, 0).len() <= input@.len()
                            && input@.subrange(
                            start as int,
                            start as int + enc_ids_from(ts, 0).len(),
                        ) == enc_ids_from(ts, 0) {
                            lemma_peel(
                                input@,
                                cur as int,
                                enc_u128(ts[c as int]),
                                enc_ids_from(ts, c as int + 1),
                            );
                        }
                    }
                }
                return None;
            },
        };
        let ghost old_ids: Seq<u128> = ids@;
        let ghost old_cur: int = cur as int;
        ids.push(idp.0);
        proof {
            lemma_enc_ids_push(old_ids, idp.0, 0);
            lemma_join(input@, start as int, enc_ids_from(old_ids, 0), enc_u128(idp.0));
            assert forall|ts: Seq<u128>| #![trigger enc_ids_from(ts, 0)]
                (ts.len() == m64 && start + enc_ids_from(ts, 0).len() <= input@.len()
                    && input@.subrange(start as int, start as int + enc_ids_from(ts, 0).len())
                    == enc_ids_from(ts, 0)) implies {
                &&& ids@ == ts.take(c as int + 1)
                &&& idp.1 as int + enc_ids_from(ts, c as int + 1).len() == start + enc_ids_from(
                    ts,
                    0,
                ).len()
                &&& input@.subrange(idp.1 as int, start as int + enc_ids_from(ts, 0).len())
                    == enc_ids_from(ts, c as int + 1)
            } by {
                lemma_peel(
                    input@,
                    old_cur,
                    enc_u128(ts[c as int]),
                    enc_ids_from(ts, c as int + 1),
                );
                assert(idp.0 == ts[c as int]);
                assert(ids@ =~= ts.take(c as int + 1));
            }
        }
        cur = idp.1;
        c = c + 1;
    }
    proof {
        assert forall|ts: Seq<u128>| #![trigger enc_ids_from(ts, 0)]
            (ts.len() == m64 && start + enc_ids_from(ts, 0).len() <= input@.len()
                && input@.subrange(start as int, start as int + enc_ids_from(ts, 0).len())
                == enc_ids_from(ts, 0)) implies (ids@ == ts && cur as int == start + enc_ids_from(
            ts,
            0,
        ).len()) by {
            assert(ts.take(c as int) =~= ts);
        }
    }
    Some((ids, cur))
}

/// Reads a node's scalar header: identity, name, description, priority
/// and due date.
#[verifier::loop_isolation(false)]
#[verifier::rlimit(100)]
fn parse_header(input: &Vec<u8>, i: usize) -> (r: Option<
    (u128, Vec<u8>, Vec<u8>, Priority, crate::date::DueDate, usize),
>)
    requires
        i <= input@.len(),
    ensures
        match r {
            Some(h) => {
                &&& i < h.5 <= input@.len()
                &&& h.5 as int == i + 16 + enc_bytes(h.1@).len() + enc_bytes(h.2@).len() + 13
                &&& input@.subrange(i as int, h.5 as int) == enc_u128(h.0) + enc_bytes(h.1@)
                    + enc_bytes(h.2@) + enc_priority(h.3) + enc_date(h.4)
                &&& h.4.wf()
            },
            None => true,
        },
        forall|tv: TaskV| #![trigger enc_task(tv)] hyp_task(input@, i as int, tv) ==> (match r {
            Some(h) => h.0 == tv.uuid && h.1@ == tv.name && h.2@ == tv.description && h.3
                == tv.priority && h.4 == tv.due_date && h.5 as int == o_comp(i as int, tv),
            None => false,
        }),
{
    let uuid = match parse_u128(input, i) {
        Some(p) => p,
        None => {
            proof {
                assert forall|tv: TaskV| #![trigger enc_task(tv)] !hyp_task(input@, i as int, tv) by {
                    if hyp_task(input@, i as int, tv) {
                        lemma_task_layout(input@, i as int, tv);
                    }
                }
            }
            return None;
        },
    };
    let name = match parse_bytes(input, uuid.1) {
        Some(p) => p,
        None => {
            proof {
                assert forall|tv: TaskV| #![trigger enc_task(tv)] !hyp_task(input@, i as int, tv) by {
                    if hyp_task(input@, i as int, tv) {
                        lemma_task_layout(input@, i as int, tv);
                    }
                }
            }
            return None;
        },
    };
    let desc = match parse_bytes(input, name.1) {
        Some(p) => p,
        None => {
            proof {
                assert forall|tv: TaskV| #![trigger enc_task(tv)] !hyp_task(input@, i as int, tv) by {
                    if hyp_task(input@, i as int, tv) {
                        lemma_task_layout(input@, i as int, tv);
                        assert(name.1 as int == i + 16 + enc_bytes(tv.name).len());
                    }
                }
            }
            return None;
        },
    };
    let prio = match parse_priority(input, desc.1) {
        Some(p) => p,
        None => {
            proof {
                assert forall|tv: TaskV| #![trigger enc_task(tv)] !hyp_task(input@, i as int, tv) by {
                    if hyp_task(input@, i as int, tv) {
                        lemma_task_layout(input@, i as int, tv);
                        assert(desc.1 as int == o_comp(i as int, tv) - 13);
                    }
                }
            }
            return None;
        },
    };
    let date = match parse_date(input, prio.1) {
        Some(p) => p,
        None => {
            proof {
                assert forall|tv: TaskV| #![trigger enc_task(tv)] !hyp_task(input@, i as int, tv) by {
                    if hyp_task(input@, i as int, tv) {
                        lemma_task_layout(input@, i as int, tv);
                        assert(prio.1 as int == o_comp(i as int, tv) - 12);
                    }
                }
            }
            return None;
        },
    };
    proof {
        lemma_join(input@, i as int, enc_u128(uuid.0), enc_bytes(name.0@));
        lemma_join(input@, i as int, enc_u128(uuid.0) + enc_bytes(name.0@), enc_bytes(desc.0@));
        lemma_join(
            input@,
            i as int,
            (enc_u128(uuid.0) + enc_bytes(name.0@)) + enc_bytes(desc.0@),
            enc_priority(prio.0),
        );
        lemma_join(
            input@,
            i as int,
            ((enc_u128(uuid.0) + enc_bytes(name.0@)) + enc_bytes(desc.0@)) + enc_priority(prio.0),
            enc_date(date.0),
        );
        assert forall|tv: TaskV| #![trigger enc_task(tv)] hyp_task(input@, i as int, tv) implies (
        uuid.0 == tv.uuid && name.0@ == tv.name && desc.0@ == tv.description && prio.0
            == tv.priority && date.0 == tv.due_date && date.1 as int == o_comp(i as int, tv)) by {
            lemma_task_layout(input@, i as int, tv);
        }
    }
    Some((uuid.0, name.0, desc.0, prio.0, date.0, date.1))
}


/// Each node's encoding takes at least one byte.
pub proof fn lemma_enc_tasks_lower(s: Seq<TaskV>, i: int)
    requires
        0 <= i <= s.len(),
    ensures
        enc_tasks_from(s, i).len() >= s.len() - i,
    decreases s, s.len() - i,
{
    if i < s.len() {
        lemma_enc_tasks_lower(s, i + 1);
        assert(enc_u128(s[i].uuid).len() == 16);
        assert(enc_task(s[i]).len() >= 16);
    }
}

pub proof fn lemma_enc_ids_lower(s: Seq<u128>, i: int)
    requires
        0 <= i <= s.len(),
    ensures
        enc_ids_from(s, i).len() >= s.len() - i,
    decreases s.len() - i,
{
    if i < s.len() {
        lemma_enc_ids_lower(s, i + 1);
    }
}

/// The view of an owned completion state.
pub open spec fn comp_deep(c: Completion) -> CompletionV {
    match c {
        Completion::Complete => CompletionV::Complete,
        Completion::Incomplete(ch) => CompletionV::Incomplete(deep_from(ch@, 0)),
    }
}

/// Valid dates below a completion state.
pub open spec fn cv_dates(cv: CompletionV) -> bool {
    match cv {
        CompletionV::Complete => true,
        CompletionV::Incomplete(ch) => dates_ok_from(ch, 0),
    }
}

/// Reads a completion state: the tag byte, and the counted children
/// when incomplete.
#[verifier::loop_isolation(false)]
#[verifier::rlimit(100)]
fn parse_completion(input: &Vec<u8>, fp: usize) -> (r: Option<(Completion, usize)>)
    requires
        fp <= input@.len(),
    ensures
        match r {
            Some(p) => {
                &&& fp < p.1 <= input@.len()
                &&& p.1 as int == fp + comp_seg_v(comp_deep(p.0)).len()
                &&& input@.subrange(fp as int, p.1 as int) == comp_seg_v(comp_deep(p.0))
                &&& cv_dates(comp_deep(p.0))
            },
            None => true,
        },
        forall|cv: CompletionV| #![trigger comp_seg_v(cv)]
            (cv_dates(cv) && fp + comp_seg_v(cv).len() <= input@.len() && input@.subrange(
                fp as int,
                fp as int + comp_seg_v(cv).len(),
            ) == comp_seg_v(cv)) ==> (match r {
                Some(p) => comp_deep(p.0) == cv && p.1 as int == fp + comp_seg_v(cv).len(),
                None => false,
            }),
    decreases input@.len() - fp, 2int,
{
    let il: usize = input.len();
    if fp >= il {
        proof {
            assert forall|cv: CompletionV| #![trigger comp_seg_v(cv)]
                !(cv_dates(cv) && fp + comp_seg_v(cv).len() <= input@.len() && input@.subrange(
                    fp as int,
                    fp as int + comp_seg_v(cv).len(),
                ) == comp_seg_v(cv)) by {
                match cv {
                    CompletionV::Complete => {},
                    CompletionV::Incomplete(ch) => {},
                }
            }
        }
        return None;
    }
    let flag = input[fp];
    proof {
        assert forall|cv: CompletionV| #![trigger comp_seg_v(cv)]
            (cv_dates(cv) && fp + comp_seg_v(cv).len() <= input@.len() && input@.subrange(
                fp as int,
                fp as int + comp_seg_v(cv).len(),
            ) == comp_seg_v(cv)) implies (flag == comp_seg_v(cv)[0] && (cv is Incomplete ==> (
        input@.subrange(fp as int + 1, fp as int + 9) == enc_u64(cv->Incomplete_0.len() as u64)
            && input@.subrange(fp as int + 9, fp as int + comp_seg_v(cv).len()) == enc_tasks_from(
            cv->Incomplete_0,
            0,
        )))) by {
            assert(input@.subrange(fp as int, fp as int + comp_seg_v(cv).len())[0]
                == input@[fp as int]);
            match cv {
                CompletionV::Complete => {},
                CompletionV::Incomplete(ch) => {
                    lemma_peel(
                        input@,
                        fp as int,
                        seq![0u8] + enc_u64(ch.len() as u64),
                        enc_tasks_from(ch, 0),
                    );
                    lemma_peel(input@, fp as int, seq![0u8], enc_u64(ch.len() as u64));
                },
            }
        }
    }
    if flag == 1 {
        proof {
            assert(input@.subrange(fp as int, fp as int + 1) =~= seq![1u8]);
        }
        return Some((Completion::Complete, fp + 1));
    }
    if flag != 0 {
        return None;
    }
    let count = match parse_u64(input, fp + 1) {
        Some(p) => p,
        None => {
            return None;
        },
    };
    let kids = match parse_children(input, count.1, count.0) {
        Some(p) => p,
        None => {
            proof {
                assert forall|cv: CompletionV| #![trigger comp_seg_v(cv)]
                    !(cv_dates(cv) && fp + comp_seg_v(cv).len() <= input@.len() && input@.subrange(
                        fp as int,
                        fp as int + comp_seg_v(cv).len(),
                    ) == comp_seg_v(cv)) by {
                    if cv_dates(cv) && fp + comp_seg_v(cv).len() <= input@.len()
                        && input@.subrange(fp as int, fp as int + comp_seg_v(cv).len())
                        == comp_seg_v(cv) {
                        match cv {
                            CompletionV::Complete => {},
                            CompletionV::Incomplete(ch) => {
                                lemma_enc_tasks_lower(ch, 0);
                                lemma_enc_u64_inj(count.0, ch.len() as u64);
                                assert(ch.len() <= input@.len());
                                assert(input@.len() == il);
                                assert(ch.len() == count.0);
                            },
                        }
                    }
                }
            }
            return None;
        },
    };
    let ghost pv: Seq<TaskV> = deep_from(kids.0@, 0);
    proof {
        lemma_deep_from_index(kids.0@, 0);
        assert(count.0 == pv.len() as u64);
        assert(input@.subrange(fp as int, fp as int + 1) =~= seq![0u8]);
        lemma_join(input@, fp as int, seq![0u8], enc_u64(count.0));
        lemma_join(input@, fp as int, seq![0u8] + enc_u64(count.0), enc_tasks_from(pv, 0));
        assert(comp_seg_v(CompletionV::Incomplete(pv)) == seq![0u8] + enc_u64(pv.len() as u64)
            + enc_tasks_from(pv, 0));
        assert(input@.subrange(fp as int, kids.1 as int) == comp_seg_v(
            CompletionV::Incomplete(pv),
        ));
        assert forall|cv: CompletionV| #![trigger comp_seg_v(cv)]
            (cv_dates(cv) && fp + comp_seg_v(cv).len() <= input@.len() && input@.subrange(
                fp as int,
                fp as int + comp_seg_v(cv).len(),
            ) == comp_seg_v(cv)) implies (CompletionV::Incomplete(pv) == cv && kids.1 as int == fp
            + comp_seg_v(cv).len()) by {
            match cv {
                CompletionV::Complete => {},
                CompletionV::Incomplete(ch) => {
                    lemma_enc_tasks_lower(ch, 0);
                    lemma_enc_u64_inj(count.0, ch.len() as u64);
                    assert(ch.len() <= input@.len());
                    assert(input@.len() == il);
                    assert(ch.len() == count.0);
                    assert(pv == ch);
                },
            }
        }
    }
    Some((Completion::Incomplete(kids.0), kids.1))
}

/// Reads one node. Returns exactly the node whose encoding stands at
/// `i`, wherever one stands there.
#[verifier::rlimit(100)]
fn parse_task(input: &Vec<u8>, i: usize) -> (r: Option<(Task, usize)>)
    requires
        i <= input@.len(),
    ensures
        match r {
            Some(p) => i < p.1 <= input@.len() && p.1 as int == i + enc_task(p.0.deep()).len()
                && input@.subrange(i as int, p.1 as int) == enc_task(p.0.deep()) && dates_ok(
                p.0.deep(),
            ),
            None => true,
        },
        forall|tv: TaskV| #![trigger enc_task(tv)] hyp_task(input@, i as int, tv) ==> (match r {
            Some(p) => p.0.deep() == tv && p.1 as int == i + enc_task(tv).len(),
            None => false,
        }),
    decreases input@.len() - i, 0int,
{
    let il: usize = input.len();
    let h = match parse_header(input, i) {
        Some(p) => p,
        None => {
            return None;
        },
    };
    let flag_pos = h.5;
    proof {
        assert forall|tv: TaskV| #![trigger enc_task(tv)] hyp_task(input@, i as int, tv) implies (
        flag_pos as int == o_comp(i as int, tv) && o_comp(i as int, tv) + comp_seg_v(
            tv.completion,
        ).len() <= input@.len() && cv_dates(tv.completion) && input@.subrange(
            o_comp(i as int, tv),
            o_comp(i as int, tv) + comp_seg_v(tv.completion).len(),
        ) == comp_seg_v(tv.completion)) by {
            lemma_task_layout(input@, i as int, tv);
            match tv.completion {
                CompletionV::Complete => {},
                CompletionV::Incomplete(ch) => {},
            }
        }
    }
    let comp = match parse_completion(input, flag_pos) {
        Some(p) => p,
        None => {
            proof {
                assert forall|tv: TaskV| #![trigger enc_task(tv)] !hyp_task(input@, i as int, tv) by {
                    if hyp_task(input@, i as int, tv) {
                        assert(comp_seg_v(tv.completion) == comp_seg_v(tv.completion));
                    }
                }
            }
            return None;
        },
    };
    let cur = comp.1;
    proof {
        assert forall|tv: TaskV| #![trigger enc_task(tv)] hyp_task(input@, i as int, tv) implies (
        comp_deep(comp.0) == tv.completion && cur as int == o_tags(i as int, tv) && o_tags(
            i as int,
            tv,
        ) + 8 + enc_ids_from(tv.tags, 0).len() <= input@.len() && input@.subrange(
            o_tags(i as int, tv),
            o_tags(i as int, tv) + 8,
        ) == enc_u64(tv.tags.len() as u64) && input@.subrange(
            o_tags(i as int, tv) + 8,
            o_end(i as int, tv),
        ) == enc_ids_from(tv.tags, 0)) by {
            lemma_task_layout(input@, i as int, tv);
            assert(comp_seg_v(tv.completion) == comp_seg(tv));
        }
    }
    let tcount = match parse_u64(input, cur) {
        Some(p) => p,
        None => {
            proof {
                assert forall|tv: TaskV| #![trigger enc_task(tv)] !hyp_task(input@, i as int, tv) by {
                    if hyp_task(input@, i as int, tv) {
                        assert(cur as int == o_tags(i as int, tv));
                        assert(cur + 8 <= input@.len());
                        assert(input@.subrange(cur as int, cur as int + 8) == enc_u64(
                            tv.tags.len() as u64,
                        ));
                    }
                }
            }
            return None;
        },
    };
    let ids = match parse_ids(input, tcount.1, tcount.0) {
        Some(p) => p,
        None => {
            proof {
                assert forall|tv: TaskV| #![trigger enc_task(tv)] !hyp_task(input@, i as int, tv) by {
                    if hyp_task(input@, i as int, tv) {
                        lemma_enc_ids_lower(tv.tags, 0);
                        lemma_enc_u64_inj(tcount.0, tv.tags.len() as u64);
                        assert(tv.tags.len() <= input@.len());
                        assert(input@.len() == il);
                        assert(tv.tags.len() == tcount.0);
                        assert(input@.subrange(
                            tcount.1 as int,
                            tcount.1 as int + enc_ids_from(tv.tags, 0).len(),
                        ) == enc_ids_from(tv.tags, 0));
                    }
                }
            }
            return None;
        },
    };
    let end = ids.1;
    let t = Task {
        name: h.1,
        description: h.2,
        priority: h.3,
        due_date: h.4,
        completion: comp.0,
        uuid: h.0,
        tags: ids.0,
    };
    proof {
        assert(t.deep().completion == comp_deep(comp.0));
        let c15 = enc_u128(t.uuid) + enc_bytes(t.name@) + enc_bytes(t.description@) + enc_priority(
            t.priority,
        ) + enc_date(t.due_date);
        let c6 = comp_seg_v(comp_deep(comp.0));
        let c7 = enc_u64(tcount.0);
        let c8 = enc_ids_from(t.tags@, 0);
        lemma_join(input@, i as int, c15, c6);
        lemma_join(input@, i as int, c15 + c6, c7);
        lemma_join(input@, i as int, (c15 + c6) + c7, c8);
        assert(tcount.0 == t.tags@.len() as u64);
        assert(enc_task(t.deep()) == (c15 + c6) + c7 + c8);
        assert(input@.subrange(i as int, end as int) == enc_task(t.deep()));
        assert(dates_ok(t.deep()));
        assert forall|tv: TaskV| #![trigger enc_task(tv)] hyp_task(input@, i as int, tv) implies (
        t.deep() == tv && end as int == i + enc_task(tv).len()) by {
            lemma_task_layout(input@, i as int, tv);
            lemma_enc_ids_lower(tv.tags, 0);
            lemma_enc_u64_inj(tcount.0, tv.tags.len() as u64);
            assert(tv.tags.len() <= input@.len());
            assert(input@.len() == il);
            assert(tv.tags.len() == tcount.0);
            assert(input@.subrange(
                tcount.1 as int,
                tcount.1 as int + enc_ids_from(tv.tags, 0).len(),
            ) == enc_ids_from(tv.tags, 0));
            assert(ids.0@ == tv.tags);
            assert(t.deep() =~= tv);
        }
    }
    Some((t, end))
}


pub proof fn lemma_enc_tags_push(s: Seq<TagV>, x: TagV, i: int)
    requires
        0 <= i <= s.len(),
    ensures
        enc_tags_from(s.push(x), i) == enc_tags_from(s, i) + enc_tag(x),
    decreases s.len() - i,
{
    if i < s.len() {
        assert(s.push(x)[i] == s[i]);
        lemma_enc_tags_push(s, x, i + 1);
        assert(enc_tags_from(s.push(x), i) =~= enc_tags_from(s, i) + enc_tag(x));
    } else {
        assert(s.push(x)[i] == x);
        assert(enc_tags_from(s.push(x), i + 1) =~= Seq::<u8>::empty());
        assert(enc_tags_from(s.push(x), i) =~= enc_tags_from(s, i) + enc_tag(x));
    }
}

pub proof fn lemma_enc_tags_lower(s: Seq<TagV>, i: int)
    requires
        0 <= i <= s.len(),
    ensures
        enc_tags_from(s, i).len() >= s.len() - i,
    decreases s.len() - i,
{
    if i < s.len() {
        lemma_enc_tags_lower(s, i + 1);
        assert(enc_u128(s[i].uuid).len() == 16);
        assert(enc_tag(s[i]).len() >= 16);
    }
}

/// Reads `m64` consecutive tags.
#[verifier::loop_isolation(false)]
#[verifier::rlimit(100)]
fn parse_tags(input: &Vec<u8>, start: usize, m64: u64) -> (r: Option<(Vec<Tag>, usize)>)
    requires
        start <= input@.len(),
    ensures
        match r {
            Some(p) => {
                &&& start <= p.1 <= input@.len()
                &&& p.1 as int == start + enc_tags_from(tags_from(p.0@, 0), 0).len()
                &&& input@.subrange(start as int, p.1 as int) == enc_tags_from(
                    tags_from(p.0@, 0),
                    0,
                )
                &&& p.0@.len() == m64
            },
            None => true,
        },
        forall|gs: Seq<TagV>| #![trigger enc_tags_from(gs, 0)]
            (gs.len() == m64 && start + enc_tags_from(gs, 0).len() <= input@.len()
                && input@.subrange(start as int, start as int + enc_tags_from(gs, 0).len())
                == enc_tags_from(gs, 0)) ==> (match r {
                Some(p) => tags_from(p.0@, 0) == gs && p.1 as int == start + enc_tags_from(
                    gs,
                    0,
                ).len(),
                None => false,
            }),
{
    let mut gv: Vec<Tag> = Vec::new();
    let mut c: u64 = 0;
    let mut cur: usize = start;
    proof {
        lemma_tags_from_index(gv@, 0);
    }
    while c < m64
        invariant
            c == gv@.len(),
            c <= m64,
            start <= cur as int <= input@.len(),
            cur as int == start + enc_tags_from(tags_from(gv@, 0), 0).len(),
            input@.subrange(start as int, cur as int) == enc_tags_from(tags_from(gv@, 0), 0),
            forall|gs: Seq<TagV>| #![trigger enc_tags_from(gs, 0)]
                (gs.len() == m64 && start + enc_tags_from(gs, 0).len() <= input@.len()
                    && input@.subrange(start as int, start as int + enc_tags_from(gs, 0).len())
                    == enc_tags_from(gs, 0)) ==> {
                    &&& tags_from(gv@, 0) == gs.take(c as int)
                    &&& cur as int + enc_tags_from(gs, c as int).len() == start + enc_tags_from(
                        gs,
                        0,
                    ).len()
                    &&& input@.subrange(cur as int, start as int + enc_tags_from(gs, 0).len())
                        == enc_tags_from(gs, c as int)
                },
        decreases m64 - c,
    {
        let ghost old_cur: int = cur as int;
        let u = match parse_u128(input, cur) {
            Some(p) => p,
            None => {
                proof {
                    assert forall|gs: Seq<TagV>| #![trigger enc_tags_from(gs, 0)]
                        !(gs.len() == m64 && start + enc_tags_from(gs, 0).len() <= input@.len()
                            && input@.subrange(
                            start as int,
                            start as int + enc_tags_from(gs, 0).len(),
                        ) == enc_tags_from(gs, 0)) by {
                        if gs.len() == m64 && start + enc_tags_from(gs, 0).len() <= input@.len()
                            && input@.subrange(
                            start as int,
                            start as int + enc_tags_from(gs, 0).len(),
                        ) == enc_tags_from(gs, 0) {
                            lemma_peel(
                                input@,
                                cur as int,
                                enc_tag(gs[c as int]),
                                enc_tags_from(gs, c as int + 1),
                            );
                            lemma_peel(
                                input@,
                                cur as int,
                                enc_u128(gs[c as int].uuid),
                                enc_bytes(gs[c as int].name) + enc_bytes(
                                    gs[c as int].description,
                                ),
                            );
                        }
                    }
                }
                return None;
            },
        };
        proof {
            assert forall|gs: Seq<TagV>| #![trigger enc_tags_from(gs, 0)]
                (gs.len() == m64 && start + enc_tags_from(gs, 0).len() <= input@.len()
                    && input@.subrange(start as int, start as int + enc_tags_from(gs, 0).len())
                    == enc_tags_from(gs, 0)) implies {
                &&& u.0 == gs[c as int].uuid
                &&& input@.subrange(
                    old_cur + 16,
                    old_cur + 16 + enc_bytes(gs[c as int].name).len(),
                ) == enc_bytes(gs[c as int].name)
                &&& input@.subrange(
                    old_cur + 16 + enc_bytes(gs[c as int].name).len(),
                    old_cur + enc_tag(gs[c as int]).len(),
                ) == enc_bytes(gs[c as int].description)
            } by {
                lemma_peel(
                    input@,
                    old_cur,
                    enc_tag(gs[c as int]),
                    enc_tags_from(gs, c as int + 1),
                );
                lemma_peel(
                    input@,
                    old_cur,
                    enc_u128(gs[c as int].uuid) + enc_bytes(gs[c as int].name),
                    enc_bytes(gs[c as int].description),
                );
                lemma_peel(
                    input@,
                    old_cur,
                    enc_u128(gs[c as int].uuid),
                    enc_bytes(gs[c as int].name),
                );
            }
        }
        let nm = match parse_bytes(input, u.1) {
            Some(p) => p,
            None => {
                return None;
            },
        };
        let ds = match parse_bytes(input, nm.1) {
            Some(p) => p,
            None => {
                return None;
            },
        };
        let g = Tag { name: nm.0, description: ds.0, uuid: u.0 };
        let ghost old_gv: Seq<Tag> = gv@;
        let ghost old_tv: Seq<TagV> = tags_from(gv@, 0);
        gv.push(g);
        proof {
            crate::list::lemma_tags_push(old_gv, g, 0);
            lemma_enc_tags_push(old_tv, g@, 0);
            assert(tags_from(gv@, 0) =~= old_tv.push(g@));
            lemma_join(input@, old_cur, enc_u128(g.uuid), enc_bytes(g.name@));
            lemma_join(
                input@,
                old_cur,
                enc_u128(g.uuid) + enc_bytes(g.name@),
                enc_bytes(g.description@),
            );
            assert(input@.subrange(old_cur, ds.1 as int) == enc_tag(g@));
            lemma_join(input@, start as int, enc_tags_from(old_tv, 0), enc_tag(g@));
            assert forall|gs: Seq<TagV>| #![trigger enc_tags_from(gs, 0)]
                (gs.len() == m64 && start + enc_tags_from(gs, 0).len() <= input@.len()
                    && input@.subrange(start as int, start as int + enc_tags_from(gs, 0).len())
                    == enc_tags_from(gs, 0)) implies {
                &&& tags_from(gv@, 0) == gs.take(c as int + 1)
                &&& ds.1 as int + enc_tags_from(gs, c as int + 1).len() == start
                    + enc_tags_from(gs, 0).len()
                &&& input@.subrange(ds.1 as int, start as int + enc_tags_from(gs, 0).len())
                    == enc_tags_from(gs, c as int + 1)
            } by {
                lemma_peel(
                    input@,
                    old_cur,
                    enc_tag(gs[c as int]),
                    enc_tags_from(gs, c as int + 1),
                );
                assert(g@ =~= gs[c as int]);
                assert(tags_from(gv@, 0) =~= gs.take(c as int + 1));
            }
        }
        cur = ds.1;
        c = c + 1;
    }
    proof {
        assert forall|gs: Seq<TagV>| #![trigger enc_tags_from(gs, 0)]
            (gs.len() == m64 && start + enc_tags_from(gs, 0).len() <= input@.len()
                && input@.subrange(start as int, start as int + enc_tags_from(gs, 0).len())
                == enc_tags_from(gs, 0)) implies (tags_from(gv@, 0) == gs && cur as int == start
            + enc_tags_from(gs, 0).len()) by {
            assert(gs.take(c as int) =~= gs);
        }
    }
    Some((gv, cur))
}

/// Decodes a whole document. An empty document is the empty store; a
/// document written by [`save`] on a store that satisfies the invariant
/// is reconstructed exactly; anything else — torn bytes, trailing bytes,
/// impossible dates, duplicate identities — is a persistence failure,
/// so a loaded store always satisfies the store invariant.
#[verifier::loop_isolation(false)]
#[verifier::rlimit(100)]
pub fn load(input: &Vec<u8>) -> (r: Result<TodoList, EngineError>)
    ensures
        input@.len() == 0 ==> r is Ok,
        match r {
            Ok(l) => l.wf() && ((input@.len() == 0 && l@.tasks == Seq::<TaskV>::empty() && l@.tags
                == Seq::<TagV>::empty()) || input@ == enc_list(l@)),
            Err(e) => e == EngineError::PersistenceFailure,
        },
        forall|lv: ListV| #![trigger enc_list(lv)]
            (uq_from(lv.tasks, 0) && dates_ok_from(lv.tasks, 0) && input@ == enc_list(lv)) ==> (
            match r {
                Ok(l) => l@.tasks == lv.tasks && l@.tags == lv.tags,
                Err(_) => false,
            }),
{
    let il: usize = input.len();
    proof {
        assert forall|lv: ListV| #![trigger enc_list(lv)]
            (dates_ok_from(lv.tasks, 0) && input@ == enc_list(lv)) implies {
            &&& input@.subrange(0, 8) == enc_u64(lv.tasks.len() as u64)
            &&& input@.subrange(8, 8 + enc_tasks_from(lv.tasks, 0).len() as int)
                == enc_tasks_from(lv.tasks, 0)
            &&& input@.subrange(
                8 + enc_tasks_from(lv.tasks, 0).len() as int,
                16 + enc_tasks_from(lv.tasks, 0).len() as int,
            ) == enc_u64(lv.tags.len() as u64)
            &&& input@.subrange(
                16 + enc_tasks_from(lv.tasks, 0).len() as int,
                input@.len() as int,
            ) == enc_tags_from(lv.tags, 0)
            &&& input@.len() == 16 + enc_tasks_from(lv.tasks, 0).len() + enc_tags_from(
                lv.tags,
                0,
            ).len()
            &&& lv.tasks.len() <= input@.len()
            &&& lv.tags.len() <= input@.len()
        } by {
            assert(input@.subrange(0, input@.len() as int) =~= input@);
            let c1 = enc_u64(lv.tasks.len() as u64);
            let c2 = enc_tasks_from(lv.tasks, 0);
            let c3 = enc_u64(lv.tags.len() as u64);
            let c4 = enc_tags_from(lv.tags, 0);
            assert(input@.subrange(0, input@.len() as int) == ((c1 + c2) + c3) + c4);
            lemma_peel(input@, 0, (c1 + c2) + c3, c4);
            lemma_peel(input@, 0, c1 + c2, c3);
            lemma_peel(input@, 0, c1, c2);
            lemma_enc_tasks_lower(lv.tasks, 0);
            lemma_enc_tags_lower(lv.tags, 0);
        }
    }
    if il == 0 {
        proof {
            assert forall|lv: ListV| #![trigger enc_list(lv)]
                !(dates_ok_from(lv.tasks, 0) && input@ == enc_list(lv)) by {
                if dates_ok_from(lv.tasks, 0) && input@ == enc_list(lv) {
                    assert(enc_list(lv).len() >= 16);
                }
            }
        }
        return Ok(TodoList::new());
    }
    let tc = match parse_u64(input, 0) {
        Some(p) => p,
        None => {
            return Err(EngineError::PersistenceFailure);
        },
    };
    let tasks = match parse_children(input, 8, tc.0) {
        Some(p) => p,
        None => {
            proof {
                assert forall|lv: ListV| #![trigger enc_list(lv)]
                    !(dates_ok_from(lv.tasks, 0) && input@ == enc_list(lv)) by {
                    if dates_ok_from(lv.tasks, 0) && input@ == enc_list(lv) {
                        lemma_enc_u64_inj(tc.0, lv.tasks.len() as u64);
                    }
                }
            }
            return Err(EngineError::PersistenceFailure);
        },
    };
    let gc = match parse_u64(input, tasks.1) {
        Some(p) => p,
        None => {
            proof {
                assert forall|lv: ListV| #![trigger enc_list(lv)]
                    !(dates_ok_from(lv.tasks, 0) && input@ == enc_list(lv)) by {
                    if dates_ok_from(lv.tasks, 0) && input@ == enc_list(lv) {
                        lemma_enc_u64_inj(tc.0, lv.tasks.len() as u64);
                        assert(deep_from(tasks.0@, 0) == lv.tasks);
                        assert(tasks.1 as int == 8 + enc_tasks_from(lv.tasks, 0).len());
                    }
                }
            }
            return Err(EngineError::PersistenceFailure);
        },
    };
    let tags = match parse_tags(input, gc.1, gc.0) {
        Some(p) => p,
        None => {
            proof {
                assert forall|lv: ListV| #![trigger enc_list(lv)]
                    !(dates_ok_from(lv.tasks, 0) && input@ == enc_list(lv)) by {
                    if dates_ok_from(lv.tasks, 0) && input@ == enc_list(lv) {
                        lemma_enc_u64_inj(tc.0, lv.tasks.len() as u64);
                        assert(deep_from(tasks.0@, 0) == lv.tasks);
                        lemma_enc_u64_inj(gc.0, lv.tags.len() as u64);
                        lemma_enc_tags_lower(lv.tags, 0);
                        assert(lv.tags.len() == gc.0);
                    }
                }
            }
            return Err(EngineError::PersistenceFailure);
        },
    };
    if tags.1 != il {
        proof {
            assert forall|lv: ListV| #![trigger enc_list(lv)]
                !(dates_ok_from(lv.tasks, 0) && input@ == enc_list(lv)) by {
                if dates_ok_from(lv.tasks, 0) && input@ == enc_list(lv) {
                    lemma_enc_u64_inj(tc.0, lv.tasks.len() as u64);
                    assert(deep_from(tasks.0@, 0) == lv.tasks);
                    lemma_enc_u64_inj(gc.0, lv.tags.len() as u64);
                    lemma_enc_tags_lower(lv.tags, 0);
                    assert(lv.tags.len() == gc.0);
                    assert(tags_from(tags.0@, 0) == lv.tags);
                }
            }
        }
        return Err(EngineError::PersistenceFailure);
    }
    let l = TodoList { tasks: tasks.0, tags: tags.0 };
    if !crate::ops::uq_check_from(&l.tasks, 0) {
        proof {
            assert forall|lv: ListV| #![trigger enc_list(lv)]
                !(uq_from(lv.tasks, 0) && dates_ok_from(lv.tasks, 0) && input@ == enc_list(
                    lv,
                )) by {
                if uq_from(lv.tasks, 0) && dates_ok_from(lv.tasks, 0) && input@ == enc_list(lv) {
                    lemma_enc_u64_inj(tc.0, lv.tasks.len() as u64);
                    assert(deep_from(l.tasks@, 0) == lv.tasks);
                }
            }
        }
        return Err(EngineError::PersistenceFailure);
    }
    proof {
        lemma_deep_from_index(l.tasks@, 0);
        lemma_tags_from_index(l.tags@, 0);
        let c1 = enc_u64(tc.0);
        let c2 = enc_tasks_from(l@.tasks, 0);
        let c3 = enc_u64(gc.0);
        let c4 = enc_tags_from(l@.tags, 0);
        lemma_join(input@, 0, c1, c2);
        lemma_join(input@, 0, c1 + c2, c3);
        lemma_join(input@, 0, (c1 + c2) + c3, c4);
        assert(tc.0 == l@.tasks.len() as u64);
        assert(gc.0 == l@.tags.len() as u64);
        assert(enc_list(l@) == ((c1 + c2) + c3) + c4);
        assert(input@.subrange(0, il as int) =~= input@);
        assert(input@ == enc_list(l@));
        assert forall|lv: ListV| #![trigger enc_list(lv)]
            (dates_ok_from(lv.tasks, 0) && input@ == enc_list(lv)) implies (l@.tasks == lv.tasks
            && l@.tags == lv.tags) by {
            lemma_enc_u64_inj(tc.0, lv.tasks.len() as u64);
            assert(deep_from(tasks.0@, 0) == lv.tasks);
            lemma_enc_u64_inj(gc.0, lv.tags.len() as u64);
            lemma_enc_tags_lower(lv.tags, 0);
            assert(lv.tags.len() == gc.0);
            assert(tags_from(l.tags@, 0) == lv.tags);
        }
    }
    Ok(l)
}

} // verus!
