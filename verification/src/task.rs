//! The recursive task node: identity, attributes, completion state and
//! owned subtasks, together with the mathematical view of a task tree.
//!
//! A task is modelled by [`TaskV`], a ghost record whose children form a
//! `Seq`. Every contract of the engine speaks of that model: pre-order
//! traversal ([`flat`]), the set of identities in a subtree ([`uset`]),
//! identity uniqueness ([`uq`]) and identity lookup ([`lookup`]).

use vstd::prelude::*;

use crate::date::DueDate;

verus! {

broadcast use vstd::seq::axiom_seq_index_decreases, vstd::std_specs::vec::axiom_vec_index_decreases, vstd::std_specs::vec::axiom_vec_decreases_to_view;

/// A task's priority.
#[derive(Clone, Copy, PartialEq, Eq, Structural, Debug)]
pub enum Priority {
    High,
    Medium,
    Low,
}

/// The completion state: `Complete` is terminal and carries no payload,
/// so completing a node discards the children it held under `Incomplete`.
#[derive(Debug)]
pub enum Completion {
    Complete,
    Incomplete(Vec<Task>),
}

/// A single task node. Free-text fields hold bytes of text.
#[derive(Debug)]
pub struct Task {
    pub name: Vec<u8>,
    pub description: Vec<u8>,
    pub priority: Priority,
    pub due_date: DueDate,
    pub completion: Completion,
    pub uuid: u128,
    pub tags: Vec<u128>,
}

/// A tag entity: present in the store, never wired into any operation.
#[derive(Debug)]
pub struct Tag {
    pub name: Vec<u8>,
    pub description: Vec<u8>,
    pub uuid: u128,
}

/// Mathematical view of a completion state.
#[verifier::ext_equal]
pub enum CompletionV {
    Complete,
    Incomplete(Seq<TaskV>),
}

/// Mathematical view of a task node.
#[verifier::ext_equal]
pub struct TaskV {
    pub name: Seq<u8>,
    pub description: Seq<u8>,
    pub priority: Priority,
    pub due_date: DueDate,
    pub completion: CompletionV,
    pub uuid: u128,
    pub tags: Seq<u128>,
}

/// Mathematical view of a tag.
#[verifier::ext_equal]
pub struct TagV {
    pub name: Seq<u8>,
    pub description: Seq<u8>,
    pub uuid: u128,
}

impl TaskV {
    /// The children a node currently owns: those held under `Incomplete`.
    pub open spec fn kids(self) -> Seq<TaskV> {
        match self.completion {
            CompletionV::Complete => Seq::empty(),
            CompletionV::Incomplete(ch) => ch,
        }
    }

    pub open spec fn is_complete(self) -> bool {
        self.completion is Complete
    }
}

impl Task {
    /// The mathematical view of this node and its whole subtree.
    pub open spec fn deep(self) -> TaskV
        decreases self, 1int,
    {
        TaskV {
            name: self.name@,
            description: self.description@,
            priority: self.priority,
            due_date: self.due_date,
            completion: match self.completion {
                Completion::Complete => CompletionV::Complete,
                Completion::Incomplete(ch) => CompletionV::Incomplete(deep_from(ch@, 0)),
            },
            uuid: self.uuid,
            tags: self.tags@,
        }
    }
}

/// Views of the tasks of `s` from index `i` on.
pub open spec fn deep_from(s: Seq<Task>, i: int) -> Seq<TaskV>
    decreases s, s.len() - i,
{
    if 0 <= i < s.len() {
        seq![s[i].deep()] + deep_from(s, i + 1)
    } else {
        Seq::empty()
    }
}

impl View for Task {
    type V = TaskV;

    open spec fn view(&self) -> TaskV {
        self.deep()
    }
}

impl View for Tag {
    type V = TagV;

    open spec fn view(&self) -> TagV {
        TagV { name: self.name@, description: self.description@, uuid: self.uuid }
    }
}

/// Views of the tags of `s` from index `i` on.
pub open spec fn tags_from(s: Seq<Tag>, i: int) -> Seq<TagV>
    decreases s.len() - i,
{
    if 0 <= i < s.len() {
        seq![s[i]@] + tags_from(s, i + 1)
    } else {
        Seq::empty()
    }
}

pub proof fn lemma_deep_from_index(s: Seq<Task>, i: int)
    requires
        0 <= i <= s.len(),
    ensures
        deep_from(s, i).len() == s.len() - i,
        forall|j: int| 0 <= j < s.len() - i ==> deep_from(s, i)[j] == s[i + j].deep(),
    decreases s.len() - i,
{
    if i < s.len() {
        lemma_deep_from_index(s, i + 1);
    }
}

pub proof fn lemma_tags_from_index(s: Seq<Tag>, i: int)
    requires
        0 <= i <= s.len(),
    ensures
        tags_from(s, i).len() == s.len() - i,
        forall|j: int| 0 <= j < s.len() - i ==> tags_from(s, i)[j] == s[i + j]@,
    decreases s.len() - i,
{
    if i < s.len() {
        lemma_tags_from_index(s, i + 1);
    }
}

/// Pre-order depth-first traversal: a node stands before its children,
/// children in stored order, descending only below `Incomplete` nodes.
pub open spec fn flat(t: TaskV) -> Seq<TaskV>
    decreases t, 1int,
{
    match t.completion {
        CompletionV::Complete => seq![t],
        CompletionV::Incomplete(ch) => seq![t] + flat_from(ch, 0),
    }
}

/// Concatenated traversals of the trees of `s` from index `i` on.
pub open spec fn flat_from(s: Seq<TaskV>, i: int) -> Seq<TaskV>
    decreases s, s.len() - i,
{
    if 0 <= i < s.len() {
        flat(s[i]) + flat_from(s, i + 1)
    } else {
        Seq::empty()
    }
}

/// The identities of the nodes of `t`'s subtree.
pub open spec fn uset(t: TaskV) -> Set<u128>
    decreases t, 1int,
{
    match t.completion {
        CompletionV::Complete => set![t.uuid],
        CompletionV::Incomplete(ch) => set![t.uuid].union(uset_from(ch, 0)),
    }
}

/// The identities of the nodes of the trees of `s` from index `i` on.
pub open spec fn uset_from(s: Seq<TaskV>, i: int) -> Set<u128>
    decreases s, s.len() - i,
{
    if 0 <= i < s.len() {
        uset(s[i]).union(uset_from(s, i + 1))
    } else {
        Set::empty()
    }
}

/// Identity uniqueness within `t`'s subtree.
pub open spec fn uq(t: TaskV) -> bool
    decreases t, 1int,
{
    match t.completion {
        CompletionV::Complete => true,
        CompletionV::Incomplete(ch) => {
            &&& !uset_from(ch, 0).contains(t.uuid)
            &&& uq_from(ch, 0)
        },
    }
}

/// Identity uniqueness across the trees of `s` from index `i` on:
/// each tree is internally unique and no identity occurs in two trees.
pub open spec fn uq_from(s: Seq<TaskV>, i: int) -> bool
    decreases s, s.len() - i,
{
    if 0 <= i < s.len() {
        &&& uq(s[i])
        &&& uset(s[i]).disjoint(uset_from(s, i + 1))
        &&& uq_from(s, i + 1)
    } else {
        true
    }
}

/// Every node of `t`'s subtree carries a date the engine accepts.
pub open spec fn dates_ok(t: TaskV) -> bool
    decreases t, 1int,
{
    &&& t.due_date.wf()
    &&& match t.completion {
        CompletionV::Complete => true,
        CompletionV::Incomplete(ch) => dates_ok_from(ch, 0),
    }
}

pub open spec fn dates_ok_from(s: Seq<TaskV>, i: int) -> bool
    decreases s, s.len() - i,
{
    if 0 <= i < s.len() {
        dates_ok(s[i]) && dates_ok_from(s, i + 1)
    } else {
        true
    }
}

/// The first node of `t`'s subtree, in pre-order, carrying identity `u`.
pub open spec fn lookup(t: TaskV, u: u128) -> Option<TaskV>
    decreases t, 1int,
{
    if t.uuid == u {
        Some(t)
    } else {
        match t.completion {
            CompletionV::Complete => None,
            CompletionV::Incomplete(ch) => lookup_from(ch, 0, u),
        }
    }
}

pub open spec fn lookup_from(s: Seq<TaskV>, i: int, u: u128) -> Option<TaskV>
    decreases s, s.len() - i,
{
    if 0 <= i < s.len() {
        match lookup(s[i], u) {
            Some(t) => Some(t),
            None => lookup_from(s, i + 1, u),
        }
    } else {
        None
    }
}

/// The recursive functions above, restated over a node's children,
/// whichever completion state holds.
pub proof fn lemma_node_unfold(t: TaskV, u: u128)
    ensures
        flat(t) == seq![t] + flat_from(t.kids(), 0),
        uset(t) == set![t.uuid].union(uset_from(t.kids(), 0)),
        uq(t) == (!uset_from(t.kids(), 0).contains(t.uuid) && uq_from(t.kids(), 0)),
        dates_ok(t) == (t.due_date.wf() && dates_ok_from(t.kids(), 0)),
        lookup(t, u) == if t.uuid == u {
            Some(t)
        } else {
            lookup_from(t.kids(), 0, u)
        },
{
    match t.completion {
        CompletionV::Complete => {
            assert(flat(t) =~= seq![t] + flat_from(t.kids(), 0));
            assert(uset(t) =~= set![t.uuid].union(uset_from(t.kids(), 0)));
        },
        CompletionV::Incomplete(ch) => {},
    }
}

/// A lookup succeeds exactly when the identity occurs in the subtree.
pub proof fn lemma_lookup_uset(t: TaskV, u: u128)
    ensures
        lookup(t, u) is Some <==> uset(t).contains(u),
    decreases t, 1int,
{
    match t.completion {
        CompletionV::Complete => {},
        CompletionV::Incomplete(ch) => {
            lemma_lookup_uset_from(ch, 0, u);
        },
    }
}

pub proof fn lemma_lookup_uset_from(s: Seq<TaskV>, i: int, u: u128)
    ensures
        lookup_from(s, i, u) is Some <==> uset_from(s, i).contains(u),
    decreases s, s.len() - i,
{
    if 0 <= i < s.len() {
        lemma_lookup_uset(s[i], u);
        lemma_lookup_uset_from(s, i + 1, u);
    }
}

/// The views of a sequence of borrowed tasks.
pub open spec fn views_of(s: Seq<&Task>) -> Seq<TaskV> {
    s.map_values(|t: &Task| t.deep())
}

impl Task {
    /// A freshly created node: incomplete, childless, untagged, carrying
    /// the supplied identity.
    pub fn new(
        name: Vec<u8>,
        description: Vec<u8>,
        priority: Priority,
        due_date: DueDate,
        uuid: u128,
    ) -> (r: Task)
        ensures
            r.deep() == new_task_v(name@, description@, priority, due_date, uuid),
    {
        let r = Task {
            name,
            description,
            priority,
            due_date,
            completion: Completion::Incomplete(Vec::new()),
            uuid,
            tags: Vec::new(),
        };
        proof {
            assert(deep_from(Seq::<Task>::empty(), 0) =~= Seq::<TaskV>::empty());
            assert(r.deep() =~= new_task_v(r.name@, r.description@, priority, due_date, uuid));
        }
        r
    }

    /// Pre-order traversal of this node's subtree.
    #[verifier::loop_isolation(false)]
    pub fn flattened(&self) -> (r: Vec<&Task>)
        ensures
            views_of(r@) == flat(self.deep()),
        decreases *self,
    {
        let mut r: Vec<&Task> = Vec::new();
        r.push(self);
        proof {
            assert(views_of(r@) =~= seq![self.deep()]);
        }
        match &self.completion {
            Completion::Complete => {
                assert(views_of(r@) =~= flat(self.deep()));
            },
            Completion::Incomplete(children) => {
                let ghost chv: Seq<TaskV> = deep_from(children@, 0);
                proof {
                    lemma_deep_from_index(children@, 0);
                    assert(flat(self.deep()) == seq![self.deep()] + flat_from(chv, 0));
                }
                let mut k: usize = 0;
                while k < children.len()
                    invariant
                        k <= children.len(),
                        chv == deep_from(children@, 0),
                        chv.len() == children@.len(),
                        forall|j: int| 0 <= j < chv.len() ==> chv[j] == children@[j].deep(),
                        views_of(r@) + flat_from(chv, k as int) == seq![self.deep()] + flat_from(
                            chv,
                            0,
                        ),
                    decreases children.len() - k,
                {
                    proof {
                        assert(decreases_to!(*self => self.completion));
                        assert(decreases_to!(self.completion => self.completion->Incomplete_0));
                        assert(self.completion->Incomplete_0 == *children);
                        assert(decreases_to!(*children => (*children)[k as int]));
                        assert(decreases_to!(*self => (*children)[k as int]));
                    }
                    let mut sub = children[k].flattened();
                    proof {
                        assert(children@[k as int].deep() == chv[k as int]);
                    }
                    let ghost r_old: Seq<&Task> = r@;
                    let ghost sub_v: Seq<&Task> = sub@;
                    r.append(&mut sub);
                    proof {
                        assert(views_of(r@) =~= views_of(r_old) + views_of(sub_v));
                        assert(views_of(r@) + flat_from(chv, k + 1) =~= seq![self.deep()]
                            + flat_from(chv, 0));
                    }
                    k += 1;
                }
                proof {
                    assert(flat_from(chv, children@.len() as int) =~= Seq::<TaskV>::empty());
                    assert(views_of(r@) =~= seq![self.deep()] + flat_from(chv, 0));
                }
            },
        }
        r
    }

    /// Depth-first search of this subtree for the node with identity `u`.
    #[verifier::loop_isolation(false)]
    pub fn find_by_uuid(&self, u: u128) -> (r: Option<&Task>)
        ensures
            match r {
                Some(t) => lookup(self.deep(), u) == Some(t.deep()),
                None => lookup(self.deep(), u) is None,
            },
        decreases *self,
    {
        if self.uuid == u {
            return Some(self);
        }
        match &self.completion {
            Completion::Complete => None,
            Completion::Incomplete(children) => {
                let ghost chv: Seq<TaskV> = deep_from(children@, 0);
                proof {
                    lemma_deep_from_index(children@, 0);
                    assert(lookup(self.deep(), u) == lookup_from(chv, 0, u));
                }
                let mut k: usize = 0;
                while k < children.len()
                    invariant
                        k <= children.len(),
                        self.uuid != u,
                        chv == deep_from(children@, 0),
                        lookup(self.deep(), u) == lookup_from(chv, 0, u),
                        chv.len() == children@.len(),
                        forall|j: int| 0 <= j < chv.len() ==> chv[j] == children@[j].deep(),
                        lookup_from(chv, 0, u) == lookup_from(chv, k as int, u),
                    decreases children.len() - k,
                {
                    proof {
                        assert(decreases_to!(*self => self.completion));
                        assert(decreases_to!(self.completion => self.completion->Incomplete_0));
                        assert(self.completion->Incomplete_0 == *children);
                        assert(decreases_to!(*children => (*children)[k as int]));
                        assert(decreases_to!(*self => (*children)[k as int]));
                    }
                    let found = children[k].find_by_uuid(u);
                    proof {
                        assert(children@[k as int].deep() == chv[k as int]);
                    }
                    match found {
                        Some(t) => {
                            return Some(t);
                        },
                        None => {},
                    }
                    k += 1;
                }
                None
            },
        }
    }
}

/// The view of a freshly created node.
pub open spec fn new_task_v(
    name: Seq<u8>,
    description: Seq<u8>,
    priority: Priority,
    due_date: DueDate,
    uuid: u128,
) -> TaskV {
    TaskV {
        name,
        description,
        priority,
        due_date,
        completion: CompletionV::Incomplete(Seq::empty()),
        uuid,
        tags: Seq::empty(),
    }
}

impl Tag {
    /// A freshly created tag carrying the supplied identity.
    pub fn new(name: Vec<u8>, description: Vec<u8>, uuid: u128) -> (r: Tag)
        ensures
            r@ == (TagV { name: name@, description: description@, uuid }),
    {
        Tag { name, description, uuid }
    }
}

} // verus!
