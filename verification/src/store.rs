//! The capability set both backends implement.
//!
//! Every operation is scoped by a caller-supplied context key. The trait
//! fixes, over each backend's own model, the behaviour the caller may rely
//! on whichever backend is active; each implementation further pins its
//! exact effect in its own stronger contract.

use vstd::prelude::*;

use crate::model::{
    contains_id, ids_below, index_of_id, lemma_index_of_id_char, park, with_status, with_text,
};
use crate::task::{spec_next_status, Task, TaskStatus, TaskView};

verus! {

/// The store interface: context-scoped reads, mutations, reordering, and
/// bounded undo.
///
/// The model of a backend is given by three spec functions: the ordered
/// live tasks of each context, the undo queue of each context (newest
/// first), and the id counter (the next id to hand out).
pub trait TaskStorage: Sized {
    /// The backend's internal invariant.
    spec fn inv(&self) -> bool;

    /// The ordered live tasks filed under a context key.
    spec fn tasks(&self, k: Seq<char>) -> Seq<TaskView>;

    /// The undo queue of a context, newest deletion first.
    spec fn deleted(&self, k: Seq<char>) -> Seq<TaskView>;

    /// The id the next added task will receive.
    spec fn counter(&self) -> nat;

    /// Law every backend must discharge: however tasks are added, removed,
    /// and restored, a context's undo queue never holds more than three
    /// entries.
    proof fn undo_bound(&self, k: Seq<char>)
        requires
            self.inv(),
        ensures
            self.deleted(k).len() <= 3,
    ;

    /// Law every backend must discharge: every live or queued id was
    /// handed out below the counter's next value, so ids are never
    /// reused, even after deletions and undos.
    proof fn ids_bounded(&self, k: Seq<char>)
        requires
            self.inv(),
        ensures
            ids_below(self.tasks(k), self.counter()),
            ids_below(self.deleted(k), self.counter()),
    ;

    /// Returns the tasks of the context, in presentation order. A context
    /// never seen before simply has no tasks: the result is empty, never
    /// an error.
    fn get_tasks(&self, context_key: &str) -> (r: Vec<Task>)
        requires
            self.inv(),
        ensures
            r.deep_view() == self.tasks(context_key@),
    ;

    /// Appends a task with the given text to the context, with status
    /// `NotStarted` and a fresh id, and returns that id.
    fn add_task(&mut self, context_key: &str, text: String) -> (r: usize)
        requires
            old(self).inv(),
            old(self).counter() < usize::MAX as nat,
        ensures
            final(self).inv(),
            r as nat == old(self).counter(),
            final(self).counter() == old(self).counter() + 1,
            final(self).tasks(context_key@).len() == old(self).tasks(context_key@).len() + 1,
            final(self).tasks(context_key@).take(old(self).tasks(context_key@).len() as int)
                == old(self).tasks(context_key@),
            final(self).tasks(context_key@).last().id == old(self).counter(),
            final(self).tasks(context_key@).last().text == text@,
            final(self).tasks(context_key@).last().status == TaskStatus::NotStarted,
            final(self).tasks(context_key@).last().created_at.len() > 0,
            forall|k2: Seq<char>|
                k2 != context_key@ ==> (#[trigger] final(self).tasks(k2)) == old(self).tasks(k2),
            forall|k2: Seq<char>| (#[trigger] final(self).deleted(k2)) == old(self).deleted(k2),
    ;

    /// Cycles the status of the task with the given id one step along
    /// NotStarted -> InProgress -> Completed -> NotStarted. Returns false,
    /// and changes nothing, when the context has no task with that id.
    fn toggle_task(&mut self, context_key: &str, id: usize) -> (r: bool)
        requires
            old(self).inv(),
        ensures
            final(self).inv(),
            r == contains_id(old(self).tasks(context_key@), id as nat),
            r ==> final(self).tasks(context_key@) == ({
                let s = old(self).tasks(context_key@);
                let i = index_of_id(s, id as nat);
                s.update(i, with_status(s[i], spec_next_status(s[i].status)))
            }),
            !r ==> final(self).tasks(context_key@) == old(self).tasks(context_key@),
            forall|k2: Seq<char>|
                k2 != context_key@ ==> (#[trigger] final(self).tasks(k2)) == old(self).tasks(k2),
            forall|k2: Seq<char>| (#[trigger] final(self).deleted(k2)) == old(self).deleted(k2),
            final(self).counter() == old(self).counter(),
    ;

    /// Sets the status of the task with the given id. Returns false, and
    /// changes nothing, when the context has no task with that id.
    fn set_task_status(&mut self, context_key: &str, id: usize, status: TaskStatus) -> (r: bool)
        requires
            old(self).inv(),
        ensures
            final(self).inv(),
            r == contains_id(old(self).tasks(context_key@), id as nat),
            r ==> final(self).tasks(context_key@) == ({
                let s = old(self).tasks(context_key@);
                let i = index_of_id(s, id as nat);
                s.update(i, with_status(s[i], status))
            }),
            !r ==> final(self).tasks(context_key@) == old(self).tasks(context_key@),
            forall|k2: Seq<char>|
                k2 != context_key@ ==> (#[trigger] final(self).tasks(k2)) == old(self).tasks(k2),
            forall|k2: Seq<char>| (#[trigger] final(self).deleted(k2)) == old(self).deleted(k2),
            final(self).counter() == old(self).counter(),
    ;

    /// Replaces, verbatim, the text of the task with the given id. Returns
    /// false, and changes nothing, when the context has no task with that
    /// id.
    fn edit_task(&mut self, context_key: &str, id: usize, new_text: String) -> (r: bool)
        requires
            old(self).inv(),
        ensures
            final(self).inv(),
            r == contains_id(old(self).tasks(context_key@), id as nat),
            r ==> final(self).tasks(context_key@) == ({
                let s = old(self).tasks(context_key@);
                let i = index_of_id(s, id as nat);
                s.update(i, with_text(s[i], new_text@))
            }),
            !r ==> final(self).tasks(context_key@) == old(self).tasks(context_key@),
            forall|k2: Seq<char>|
                k2 != context_key@ ==> (#[trigger] final(self).tasks(k2)) == old(self).tasks(k2),
            forall|k2: Seq<char>| (#[trigger] final(self).deleted(k2)) == old(self).deleted(k2),
            final(self).counter() == old(self).counter(),
    ;

    /// Moves the task with the given id out of the live list and into the
    /// context's undo queue, newest first, trimming the queue to three
    /// entries. Returns false, and changes nothing, when the context has
    /// no task with that id.
    fn remove_task(&mut self, context_key: &str, id: usize) -> (r: bool)
        requires
            old(self).inv(),
        ensures
            final(self).inv(),
            r == contains_id(old(self).tasks(context_key@), id as nat),
            r ==> final(self).tasks(context_key@) == old(self).tasks(context_key@).remove(
                index_of_id(old(self).tasks(context_key@), id as nat),
            ),
            r ==> final(self).deleted(context_key@) == park(
                old(self).deleted(context_key@),
                old(self).tasks(context_key@)[index_of_id(
                    old(self).tasks(context_key@),
                    id as nat,
                )],
            ),
            !r ==> final(self).tasks(context_key@) == old(self).tasks(context_key@),
            !r ==> final(self).deleted(context_key@) == old(self).deleted(context_key@),
            forall|k2: Seq<char>|
                k2 != context_key@ ==> (#[trigger] final(self).tasks(k2)) == old(self).tasks(k2),
            forall|k2: Seq<char>|
                k2 != context_key@ ==> (#[trigger] final(self).deleted(k2)) == old(self).deleted(
                    k2,
                ),
            final(self).counter() == old(self).counter(),
    ;

    /// Pops the newest entry from the context's undo queue and restores it
    /// to the live list; the restored task keeps its id, text, status, and
    /// creation time. Returns it, or `None` (changing nothing) when the
    /// queue is empty. Where the restored task lands in the order is the
    /// backend's own affair: only the collection of live tasks is fixed
    /// here.
    fn undo_delete(&mut self, context_key: &str) -> (r: Option<Task>)
        requires
            old(self).inv(),
        ensures
            final(self).inv(),
            (r is Some) == (old(self).deleted(context_key@).len() > 0),
            r matches Some(t) ==> t@ == old(self).deleted(context_key@)[0],
            r is Some ==> final(self).deleted(context_key@) == old(self).deleted(
                context_key@,
            ).drop_first(),
            r matches Some(t) ==> final(self).tasks(context_key@).to_multiset() == old(
                self,
            ).tasks(context_key@).to_multiset().insert(t@),
            r is None ==> final(self).tasks(context_key@) == old(self).tasks(context_key@),
            r is None ==> final(self).deleted(context_key@) == old(self).deleted(context_key@),
            forall|k2: Seq<char>|
                k2 != context_key@ ==> (#[trigger] final(self).tasks(k2)) == old(self).tasks(k2),
            forall|k2: Seq<char>|
                k2 != context_key@ ==> (#[trigger] final(self).deleted(k2)) == old(self).deleted(
                    k2,
                ),
            final(self).counter() == old(self).counter(),
    ;

    /// Moves the task with the given id one step toward the front of the
    /// context's order. Returns false, and changes nothing, when the id is
    /// absent or the task is already first. How the exchange is carried
    /// out — whole records or their ids — is fixed by each backend's own
    /// contract.
    fn move_task_up(&mut self, context_key: &str, id: usize) -> (r: bool)
        requires
            old(self).inv(),
        ensures
            final(self).inv(),
            !r ==> final(self).tasks(context_key@) == old(self).tasks(context_key@),
            final(self).tasks(context_key@).len() == old(self).tasks(context_key@).len(),
            forall|k2: Seq<char>|
                k2 != context_key@ ==> (#[trigger] final(self).tasks(k2)) == old(self).tasks(k2),
            forall|k2: Seq<char>| (#[trigger] final(self).deleted(k2)) == old(self).deleted(k2),
            final(self).counter() == old(self).counter(),
    ;

    /// Moves the task with the given id one step toward the back of the
    /// context's order. Returns false, and changes nothing, when the id is
    /// absent or the task is already last.
    fn move_task_down(&mut self, context_key: &str, id: usize) -> (r: bool)
        requires
            old(self).inv(),
        ensures
            final(self).inv(),
            !r ==> final(self).tasks(context_key@) == old(self).tasks(context_key@),
            final(self).tasks(context_key@).len() == old(self).tasks(context_key@).len(),
            forall|k2: Seq<char>|
                k2 != context_key@ ==> (#[trigger] final(self).tasks(k2)) == old(self).tasks(k2),
            forall|k2: Seq<char>| (#[trigger] final(self).deleted(k2)) == old(self).deleted(k2),
            final(self).counter() == old(self).counter(),
    ;
}

/// For any backend honouring its invariant, the id the next add will hand
/// out — the counter's value — is carried by no live task and no queued
/// deletion of any context: an id, once retired, never comes back.
pub proof fn lemma_fresh_id<S: TaskStorage>(s: &S, k: Seq<char>)
    requires
        s.inv(),
    ensures
        !contains_id(s.tasks(k), s.counter()),
        !contains_id(s.deleted(k), s.counter()),
{
    s.ids_bounded(k);
    lemma_index_of_id_char(s.tasks(k), s.counter());
    lemma_index_of_id_char(s.deleted(k), s.counter());
    if index_of_id(s.tasks(k), s.counter()) >= 0 {
        let i = index_of_id(s.tasks(k), s.counter());
        assert(s.tasks(k)[i].id < s.counter());
    }
    if index_of_id(s.deleted(k), s.counter()) >= 0 {
        let i = index_of_id(s.deleted(k), s.counter());
        assert(s.deleted(k)[i].id < s.counter());
    }
}

} // verus!
