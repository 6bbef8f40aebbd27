//! The root aggregate: the forest of top-level tasks and the tag
//! collection, with every tree-wide operation.

use vstd::prelude::*;

use crate::EngineError;
use crate::date::{DueDate, apply_changes, apply_changes_spec};
use crate::ops::{
    as_from, as_vec, clone_tasks, copy_bytes, lemma_as_preserves_from, lemma_deep_from_push,
    lemma_lookup_dates_from, lemma_mc_preserves_from, lemma_md_preserves_from, lemma_push_facts,
    lemma_rm_preserves_from, md_from, md_vec, mc_from, mc_vec, opt_name_view, rm_from, rm_vec,
};
use crate::sys::fresh_uuid;
use crate::task::{
    Completion, CompletionV, Priority, Tag, TagV, Task, TaskV, dates_ok, dates_ok_from, deep_from,
    flat_from, lemma_deep_from_index, lemma_lookup_uset_from, lemma_tags_from_index, lookup,
    lookup_from, new_task_v, tags_from, uq, uq_from, uset, uset_from, views_of,
};

verus! {

/// What completing a node reported: a fresh transition, or a node that
/// already stood complete.
#[derive(Clone, Copy, PartialEq, Eq, Structural, Debug)]
pub enum CompleteOutcome {
    Completed,
    AlreadyComplete,
}

/// Whether some direct child of the node is incomplete.
pub open spec fn has_incomplete_kid(t: TaskV) -> bool {
    exists|j: int| 0 <= j < t.kids().len() && !t.kids()[j].is_complete()
}

/// The whole task store.
#[derive(Debug)]
pub struct TodoList {
    pub tasks: Vec<Task>,
    pub tags: Vec<Tag>,
}

/// Mathematical view of the store.
#[verifier::ext_equal]
pub struct ListV {
    pub tasks: Seq<TaskV>,
    pub tags: Seq<TagV>,
}

impl View for TodoList {
    type V = ListV;

    open spec fn view(&self) -> ListV {
        ListV { tasks: deep_from(self.tasks@, 0), tags: tags_from(self.tags@, 0) }
    }
}

impl TodoList {
    /// The store's invariant: no two nodes share an identity, and every
    /// node carries a date the engine accepts.
    pub open spec fn wf(self) -> bool {
        &&& uq_from(self@.tasks, 0)
        &&& dates_ok_from(self@.tasks, 0)
    }

    /// An empty store.
    pub fn new() -> (r: TodoList)
        ensures
            r.wf(),
            r@.tasks == Seq::<TaskV>::empty(),
            r@.tags == Seq::<TagV>::empty(),
    {
        let r = TodoList { tasks: Vec::new(), tags: Vec::new() };
        proof {
            assert(r@.tasks =~= Seq::<TaskV>::empty());
            assert(r@.tags =~= Seq::<TagV>::empty());
        }
        r
    }

    /// Pre-order traversal of the whole forest.
    #[verifier::loop_isolation(false)]
    pub fn flattened(&self) -> (r: Vec<&Task>)
        ensures
            views_of(r@) == flat_from(self@.tasks, 0),
    {
        let ghost sv: Seq<TaskV> = self@.tasks;
        proof {
            lemma_deep_from_index(self.tasks@, 0);
        }
        let mut r: Vec<&Task> = Vec::new();
        proof {
            assert(views_of(r@) =~= Seq::<TaskV>::empty());
        }
        let mut k: usize = 0;
        while k < self.tasks.len()
            invariant
                k <= self.tasks.len(),
                views_of(r@) + flat_from(sv, k as int) == flat_from(sv, 0),
            decreases self.tasks.len() - k,
        {
            let mut sub = self.tasks[k].flattened();
            proof {
                assert(self.tasks@[k as int].deep() == sv[k as int]);
            }
            let ghost r_old: Seq<&Task> = r@;
            let ghost sub_v: Seq<&Task> = sub@;
            r.append(&mut sub);
            proof {
                assert(views_of(r@) =~= views_of(r_old) + views_of(sub_v));
                assert(views_of(r@) + flat_from(sv, k + 1) =~= flat_from(sv, 0));
            }
            k += 1;
        }
        proof {
            assert(flat_from(sv, self.tasks@.len() as int) =~= Seq::<TaskV>::empty());
            assert(views_of(r@) =~= flat_from(sv, 0));
        }
        r
    }

    /// Depth-first search of the forest for the node with identity `u`;
    /// by identity uniqueness at most one node matches.
    pub fn find_by_uuid(&self, u: u128) -> (r: Option<&Task>)
        ensures
            match r {
                Some(t) => lookup_from(self@.tasks, 0, u) == Some(t.deep()),
                None => lookup_from(self@.tasks, 0, u) is None,
            },
    {
        crate::ops::find_in_vec(&self.tasks, u)
    }

    /// Whether some node of the forest carries identity `u`.
    pub fn contains_uuid(&self, u: u128) -> (r: bool)
        ensures
            r == uset_from(self@.tasks, 0).contains(u),
    {
        proof {
            lemma_lookup_uset_from(self@.tasks, 0, u);
        }
        match crate::ops::find_in_vec(&self.tasks, u) {
            Some(_) => true,
            None => false,
        }
    }

    /// Appends a top-level task carrying the supplied fresh identity.
    pub fn add_top_level_with_uuid(
        &mut self,
        name: Vec<u8>,
        description: Vec<u8>,
        priority: Priority,
        due: DueDate,
        uuid: u128,
    )
        requires
            old(self).wf(),
            due.wf(),
            !uset_from(old(self)@.tasks, 0).contains(uuid),
        ensures
            final(self).wf(),
            final(self)@.tasks == old(self)@.tasks.push(
                new_task_v(name@, description@, priority, due, uuid),
            ),
            final(self)@.tags == old(self)@.tags,
    {
        let ghost old_tasks: Seq<TaskV> = self@.tasks;
        let ghost old_vec: Seq<Task> = self.tasks@;
        let t = Task::new(name, description, priority, due, uuid);
        let ghost tv: TaskV = t.deep();
        self.tasks.push(t);
        proof {
            lemma_deep_from_push(old_vec, t, 0);
            assert(uset_from(Seq::<TaskV>::empty(), 0) =~= Set::<u128>::empty());
            assert(uq(tv));
            assert(dates_ok(tv));
            assert(uset(tv) =~= set![uuid]);
            assert forall|e: u128| uset(tv).contains(e) implies !uset_from(
                old_tasks,
                0,
            ).contains(e) by {
                assert(e == uuid);
            }
            assert(uset(tv).disjoint(uset_from(old_tasks, 0)));
            lemma_push_facts(old_tasks, tv, 0, uuid);
            assert(self@.tasks =~= old_tasks.push(tv));
        }
    }

    /// Creates a top-level task under a freshly drawn identity and
    /// reports it; the draw is rejected in the never-expected case that
    /// it collides with an identity already in the forest.
    pub fn add_top_level_task(
        &mut self,
        name: Vec<u8>,
        description: Vec<u8>,
        priority: Priority,
        due: DueDate,
    ) -> (r: Result<u128, EngineError>)
        requires
            old(self).wf(),
            due.wf(),
        ensures
            final(self).wf(),
            final(self)@.tags == old(self)@.tags,
            match r {
                Ok(u) => !uset_from(old(self)@.tasks, 0).contains(u) && final(self)@.tasks == old(self)@.tasks.push(new_task_v(name@, description@, priority, due, u)),
                Err(e) => e == EngineError::InvalidInput && final(self)@.tasks == old(self)@.tasks,
            },
    {
        let u = fresh_uuid();
        if self.contains_uuid(u) {
            return Err(EngineError::InvalidInput);
        }
        self.add_top_level_with_uuid(name, description, priority, due, u);
        Ok(u)
    }

    /// Adds a subtask carrying the supplied fresh identity under the
    /// parent with identity `parent`; fails with `NotFound` when no node
    /// carries that identity. A complete parent is reopened.
    pub fn add_subtask_with_uuid(
        &mut self,
        parent: u128,
        name: &Vec<u8>,
        description: &Vec<u8>,
        priority: Priority,
        due: DueDate,
        uuid: u128,
    ) -> (r: Result<(), EngineError>)
        requires
            old(self).wf(),
            due.wf(),
            !uset_from(old(self)@.tasks, 0).contains(uuid),
        ensures
            final(self).wf(),
            final(self)@.tags == old(self)@.tags,
            match r {
                Ok(()) => uset_from(old(self)@.tasks, 0).contains(parent) && final(self)@.tasks
                    == as_from(
                    old(self)@.tasks,
                    0,
                    parent,
                    new_task_v(name@, description@, priority, due, uuid),
                ),
                Err(e) => e == EngineError::NotFound && !uset_from(old(self)@.tasks, 0).contains(
                    parent,
                ) && final(self)@.tasks == old(self)@.tasks,
            },
    {
        let ghost old_tasks: Seq<TaskV> = self@.tasks;
        let ghost c: TaskV = new_task_v(name@, description@, priority, due, uuid);
        if !self.contains_uuid(parent) {
            return Err(EngineError::NotFound);
        }
        let nt = as_vec(&self.tasks, parent, name, description, priority, due, uuid);
        self.tasks = nt;
        proof {
            assert(uset_from(Seq::<TaskV>::empty(), 0) =~= Set::<u128>::empty());
            assert(uq(c));
            assert(dates_ok(c));
            assert(uset(c) =~= set![uuid]);
            assert forall|e: u128| uset(c).contains(e) implies !uset_from(
                old_tasks,
                0,
            ).contains(e) by {
                assert(e == uuid);
            }
            assert(uset(c).disjoint(uset_from(old_tasks, 0)));
            lemma_as_preserves_from(old_tasks, 0, parent, c, uuid);
        }
        Ok(())
    }

    /// Creates a subtask under a freshly drawn identity and reports it;
    /// `NotFound` when the parent identity is absent, and the draw is
    /// rejected in the never-expected case of a collision.
    pub fn add_subtask(
        &mut self,
        parent: u128,
        name: &Vec<u8>,
        description: &Vec<u8>,
        priority: Priority,
        due: DueDate,
    ) -> (r: Result<u128, EngineError>)
        requires
            old(self).wf(),
            due.wf(),
        ensures
            final(self).wf(),
            final(self)@.tags == old(self)@.tags,
            !uset_from(old(self)@.tasks, 0).contains(parent) ==> r == Err::<u128, EngineError>(
                EngineError::NotFound,
            ),
            match r {
                Ok(u) => uset_from(old(self)@.tasks, 0).contains(parent) && !uset_from(
                    old(self)@.tasks,
                    0,
                ).contains(u) && final(self)@.tasks == as_from(
                    old(self)@.tasks,
                    0,
                    parent,
                    new_task_v(name@, description@, priority, due, u),
                ),
                Err(e) => final(self)@.tasks == old(self)@.tasks && (if e == EngineError::NotFound {
                    !uset_from(old(self)@.tasks, 0).contains(parent)
                } else {
                    e == EngineError::InvalidInput && uset_from(old(self)@.tasks, 0).contains(
                        parent,
                    )
                }),
            },
    {
        if !self.contains_uuid(parent) {
            return Err(EngineError::NotFound);
        }
        let u = fresh_uuid();
        if self.contains_uuid(u) {
            return Err(EngineError::InvalidInput);
        }
        match self.add_subtask_with_uuid(parent, name, description, priority, due, u) {
            Ok(()) => Ok(u),
            Err(e) => Err(e),
        }
    }

    /// Marks the node with identity `u` complete. Fails with `NotFound`
    /// when the identity is absent, reports an already complete node
    /// without a state change, and fails with
    /// `BlockedByIncompleteChildren` exactly when some direct child is
    /// incomplete.
    #[verifier::loop_isolation(false)]
    pub fn complete_by_uuid(&mut self, u: u128) -> (r: Result<CompleteOutcome, EngineError>)
        requires
            old(self).wf(),
        ensures
            final(self).wf(),
            final(self)@.tags == old(self)@.tags,
            match lookup_from(old(self)@.tasks, 0, u) {
                None => r == Err::<CompleteOutcome, EngineError>(EngineError::NotFound) && final(self)@.tasks == old(self)@.tasks,
                Some(n) => if n.is_complete() {
                    r == Ok::<CompleteOutcome, EngineError>(CompleteOutcome::AlreadyComplete)
                        && final(self)@.tasks == old(self)@.tasks
                } else if has_incomplete_kid(n) {
                    r == Err::<CompleteOutcome, EngineError>(
                        EngineError::BlockedByIncompleteChildren,
                    ) && final(self)@.tasks == old(self)@.tasks
                } else {
                    r == Ok::<CompleteOutcome, EngineError>(CompleteOutcome::Completed) && final(self)@.tasks == mc_from(old(self)@.tasks, 0, u)
                },
            },
    {
        let ghost old_tasks: Seq<TaskV> = self@.tasks;
        {
            let found = crate::ops::find_in_vec(&self.tasks, u);
            match found {
                None => {
                    return Err(EngineError::NotFound);
                },
                Some(t) => {
                    let ghost n: TaskV = t.deep();
                    match &t.completion {
                        Completion::Complete => {
                            return Ok(CompleteOutcome::AlreadyComplete);
                        },
                        Completion::Incomplete(ch) => {
                            let ghost kv: Seq<TaskV> = deep_from(ch@, 0);
                            proof {
                                lemma_deep_from_index(ch@, 0);
                                assert(n.kids() == kv);
                            }
                            let mut j: usize = 0;
                            while j < ch.len()
                                invariant
                                    j <= ch.len(),
                                    forall|i: int| 0 <= i < j ==> kv[i].is_complete(),
                                decreases ch.len() - j,
                            {
                                match &ch[j].completion {
                                    Completion::Incomplete(_) => {
                                        proof {
                                            assert(kv[j as int] == ch@[j as int].deep());
                                            assert(!kv[j as int].is_complete());
                                        }
                                        return Err(EngineError::BlockedByIncompleteChildren);
                                    },
                                    Completion::Complete => {
                                        proof {
                                            assert(kv[j as int] == ch@[j as int].deep());
                                        }
                                    },
                                }
                                j += 1;
                            }
                            proof {
                                assert(!has_incomplete_kid(n));
                            }
                        },
                    }
                },
            }
        }
        let nt = mc_vec(&self.tasks, u);
        self.tasks = nt;
        proof {
            lemma_mc_preserves_from(old_tasks, 0, u, u);
        }
        Ok(CompleteOutcome::Completed)
    }

    /// Removes every node with identity `u`, with its whole subtree, at
    /// any depth, the top level included.
    pub fn remove_by_uuid(&mut self, u: u128)
        requires
            old(self).wf(),
        ensures
            final(self).wf(),
            final(self)@.tags == old(self)@.tags,
            final(self)@.tasks == rm_from(old(self)@.tasks, 0, u),
    {
        let ghost old_tasks: Seq<TaskV> = self@.tasks;
        let nt = rm_vec(&self.tasks, u);
        self.tasks = nt;
        proof {
            lemma_rm_preserves_from(old_tasks, 0, u, u);
        }
    }

    /// Replaces the supplied fields of the node with identity `u`. The
    /// due date is rebuilt by substituting only the supplied components,
    /// in order; a substitution that leaves no acceptable date fails with
    /// `InvalidInput`, and an absent identity with `NotFound`.
    pub fn modify_by_uuid(
        &mut self,
        u: u128,
        name: Option<&Vec<u8>>,
        year: Option<i32>,
        month: Option<u32>,
        day: Option<u32>,
        hour: Option<u32>,
        minute: Option<u32>,
    ) -> (r: Result<(), EngineError>)
        requires
            old(self).wf(),
        ensures
            final(self).wf(),
            final(self)@.tags == old(self)@.tags,
            match lookup_from(old(self)@.tasks, 0, u) {
                None => r == Err::<(), EngineError>(EngineError::NotFound) && final(self)@.tasks
                    == old(self)@.tasks,
                Some(n) => match apply_changes_spec(n.due_date, year, month, day, hour, minute) {
                    None => r == Err::<(), EngineError>(EngineError::InvalidInput) && final(self)@.tasks == old(self)@.tasks,
                    Some(nd) => r == Ok::<(), EngineError>(()) && final(self)@.tasks == md_from(
                        old(self)@.tasks,
                        0,
                        u,
                        opt_name_view(name),
                        Some(nd),
                    ),
                },
            },
    {
        let ghost old_tasks: Seq<TaskV> = self@.tasks;
        let new_due: DueDate;
        {
            let found = crate::ops::find_in_vec(&self.tasks, u);
            match found {
                None => {
                    return Err(EngineError::NotFound);
                },
                Some(t) => {
                    proof {
                        lemma_lookup_dates_from(old_tasks, 0, u);
                    }
                    match apply_changes(&t.due_date, year, month, day, hour, minute) {
                        None => {
                            return Err(EngineError::InvalidInput);
                        },
                        Some(nd) => {
                            new_due = nd;
                        },
                    }
                },
            }
        }
        let nt = md_vec(&self.tasks, u, name, Some(new_due));
        self.tasks = nt;
        proof {
            lemma_md_preserves_from(old_tasks, 0, u, opt_name_view(name), Some(new_due), u);
        }
        Ok(())
    }

    /// Appends a tag under a freshly drawn identity and reports it. Tags
    /// are stored and persisted, and no operation reads them.
    pub fn add_tag(&mut self, name: Vec<u8>, description: Vec<u8>) -> (r: u128)
        ensures
            final(self)@.tasks == old(self)@.tasks,
            final(self)@.tags == old(self)@.tags.push(
                TagV { name: name@, description: description@, uuid: r },
            ),
            old(self).wf() ==> final(self).wf(),
    {
        let u = fresh_uuid();
        let ghost old_tags: Seq<Tag> = self.tags@;
        self.tags.push(Tag::new(name, description, u));
        proof {
            lemma_tags_push(old_tags, self.tags@[self.tags@.len() - 1], 0);
        }
        u
    }
}

pub proof fn lemma_tags_push(s: Seq<Tag>, x: Tag, i: int)
    requires
        0 <= i <= s.len(),
    ensures
        tags_from(s.push(x), i) == tags_from(s, i) + seq![x@],
    decreases s.len() - i,
{
    if i < s.len() {
        assert(s.push(x)[i] == s[i]);
        lemma_tags_push(s, x, i + 1);
        assert(tags_from(s.push(x), i) =~= tags_from(s, i) + seq![x@]);
    } else {
        assert(s.push(x)[i] == x);
        assert(tags_from(s.push(x), i + 1) =~= Seq::<TagV>::empty());
        assert(tags_from(s.push(x), i) =~= tags_from(s, i) + seq![x@]);
    }
}

} // verus!
