//! The plain single-document store: context-scoped todo lists and a
//! shared id counter, without undo queues or reordering.
//!
//! A todo's mathematical value is a [`TaskView`](crate::task::TaskView):
//! the status enums of the two stores name the same three-step cycle.

use vstd::prelude::*;

use crate::ctx::{
    find_key, items_at, key_index, lemma_context_lookup, lemma_context_push,
    lemma_context_update, ContextEntry,
};
use crate::model::{
    contains_id, ids_below, index_of_id, lemma_index_of_id_char, unique_ids, with_status,
    with_text,
};
use crate::task::{spec_next_status, TaskStatus, TaskView};

verus! {

/// Progress of a todo; mirrors the task status cycle.
#[derive(Debug, Clone, Copy, PartialEq, Eq, Structural)]
pub enum TodoStatus {
    NotStarted,
    InProgress,
    Completed,
}

/// The shared three-variant status model a todo status stands for.
pub open spec fn todo_status_view(s: TodoStatus) -> TaskStatus {
    match s {
        TodoStatus::NotStarted => TaskStatus::NotStarted,
        TodoStatus::InProgress => TaskStatus::InProgress,
        TodoStatus::Completed => TaskStatus::Completed,
    }
}

impl Default for TodoStatus {
    /// A freshly created todo has not been started.
    fn default() -> (r: Self)
        ensures
            r == TodoStatus::NotStarted,
    {
        TodoStatus::NotStarted
    }
}

/// A single todo item.
#[derive(Debug)]
pub struct Todo {
    pub id: usize,
    pub text: String,
    pub status: TodoStatus,
    pub created_at: String,
}

impl View for Todo {
    type V = TaskView;

    open spec fn view(&self) -> TaskView {
        TaskView {
            id: self.id as nat,
            text: self.text@,
            status: todo_status_view(self.status),
            created_at: self.created_at@,
        }
    }
}

impl DeepView for Todo {
    type V = TaskView;

    open spec fn deep_view(&self) -> TaskView {
        self@
    }
}

impl Clone for Todo {
    /// Cloning preserves the todo's view.
    fn clone(&self) -> (r: Self)
        ensures
            r@ == self@,
    {
        Todo {
            id: self.id,
            text: self.text.clone(),
            status: self.status,
            created_at: self.created_at.clone(),
        }
    }
}

impl Todo {
    /// Creates a todo with the given id and text, status `NotStarted`, and
    /// the current time as its creation timestamp.
    pub fn new(id: usize, text: String) -> (r: Self)
        ensures
            r@.id == id as nat,
            r@.text == text@,
            r@.status == TaskStatus::NotStarted,
            r@.created_at.len() > 0,
    {
        Todo { id, text, status: TodoStatus::NotStarted, created_at: crate::clock::now_rfc3339() }
    }

    /// True exactly when the todo has reached `Completed`.
    pub fn is_completed(&self) -> (r: bool)
        ensures
            r == (self@.status == TaskStatus::Completed),
    {
        matches!(self.status, TodoStatus::Completed)
    }
}

/// In-memory state of the single-document store: the context table and the
/// shared id counter. The caller persists the whole structure after each
/// mutation.
#[derive(Debug)]
pub struct TodoStorage {
    pub contexts: Vec<ContextEntry<Todo>>,
    pub next_id: usize,
}

impl Default for TodoStorage {
    /// An empty store, with ids starting at 1.
    fn default() -> (r: Self)
        ensures
            r.wf(),
            r.next_id == 1,
            forall|k: Seq<char>| (#[trigger] r.spec_todos(k)) == Seq::<TaskView>::empty(),
    {
        let r = TodoStorage { contexts: Vec::new(), next_id: 1 };
        proof {
            assert(r.contexts@ =~= Seq::<ContextEntry<Todo>>::empty());
        }
        r
    }
}

impl TodoStorage {
    /// The todos of a context, in presentation order.
    pub open spec fn spec_todos(&self, k: Seq<char>) -> Seq<TaskView> {
        items_at(self.contexts@, k)
    }

    /// The store's invariant: within each context ids are unique, and all
    /// ids lie below the counter.
    pub open spec fn wf(&self) -> bool {
        &&& self.next_id >= 1
        &&& forall|k: Seq<char>| unique_ids(#[trigger] self.spec_todos(k))
        &&& forall|k: Seq<char>| ids_below(#[trigger] self.spec_todos(k), self.next_id as nat)
    }

    /// Returns the todos of the context, in order; a context never seen
    /// before has none.
    pub fn get_todos(&self, context_key: &str) -> (r: Vec<Todo>)
        requires
            self.wf(),
        ensures
            r.deep_view() == self.spec_todos(context_key@),
    {
        let ck = context_key.to_owned();
        proof {
            lemma_context_lookup(self.contexts@, ck@);
        }
        match find_key(&self.contexts, &ck) {
            Some(ci) => clone_todos(&self.contexts[ci].items),
            None => {
                let r: Vec<Todo> = Vec::new();
                proof {
                    assert(r.deep_view() =~= Seq::<TaskView>::empty());
                }
                r
            },
        }
    }

    /// Appends a todo with the given text to the context, with status
    /// `NotStarted` and a fresh id, and returns that id.
    pub fn add_todo(&mut self, context_key: &str, text: String) -> (r: usize)
        requires
            old(self).wf(),
            old(self).next_id < usize::MAX,
        ensures
            final(self).wf(),
            r == old(self).next_id,
            final(self).next_id == old(self).next_id + 1,
            final(self).spec_todos(context_key@).len() == old(self).spec_todos(
                context_key@,
            ).len() + 1,
            final(self).spec_todos(context_key@).take(
                old(self).spec_todos(context_key@).len() as int,
            ) == old(self).spec_todos(context_key@),
            final(self).spec_todos(context_key@).last().id == old(self).next_id as nat,
            final(self).spec_todos(context_key@).last().text == text@,
            final(self).spec_todos(context_key@).last().status == TaskStatus::NotStarted,
            final(self).spec_todos(context_key@).last().created_at.len() > 0,
            forall|k2: Seq<char>|
                k2 != context_key@ ==> (#[trigger] final(self).spec_todos(k2)) == old(
                    self,
                ).spec_todos(k2),
    {
        let ck = context_key.to_owned();
        let ghost k = ck@;
        let ghost entries0 = self.contexts@;
        let ghost s0 = self.spec_todos(k);
        proof {
            lemma_context_lookup(entries0, k);
        }
        let t = Todo::new(self.next_id, text);
        let ghost tv = t@;
        let id = self.next_id;
        match find_key(&self.contexts, &ck) {
            Some(ci) => {
                let mut entry = self.contexts.remove(ci);
                let ghost items0 = entry.items.deep_view();
                entry.items.push(t);
                proof {
                    assert(entry.items.deep_view() =~= items0.push(tv));
                }
                self.contexts.insert(ci, entry);
                proof {
                    let e = self.contexts@[ci as int];
                    assert(self.contexts@ =~= entries0.update(ci as int, e));
                    lemma_context_update(entries0, ci as int, e);
                    assert(self.spec_todos(k) == s0.push(tv));
                    assert forall|k2: Seq<char>|
                        k2 != k implies #[trigger] self.spec_todos(k2) == items_at(
                        entries0,
                        k2,
                    ) by {
                        assert(items_at(entries0.update(ci as int, e), k2) == items_at(
                            entries0,
                            k2,
                        ));
                    }
                }
            },
            None => {
                let mut items: Vec<Todo> = Vec::new();
                items.push(t);
                let e = ContextEntry { key: ck, items };
                proof {
                    assert(e.items.deep_view() =~= Seq::<TaskView>::empty().push(tv));
                }
                self.contexts.push(e);
                proof {
                    let e2 = self.contexts@.last();
                    assert(e2.key@ == k);
                    lemma_context_push(entries0, e2);
                    assert(s0 =~= Seq::<TaskView>::empty());
                    assert(self.spec_todos(k) == s0.push(tv));
                    assert forall|k2: Seq<char>|
                        k2 != k implies #[trigger] self.spec_todos(k2) == items_at(
                        entries0,
                        k2,
                    ) by {
                        assert(key_index(entries0.push(e2), k2) == key_index(entries0, k2));
                        assert(items_at(entries0.push(e2), k2) == items_at(entries0, k2));
                    }
                }
            },
        }
        self.next_id = id + 1;
        proof {
            lemma_todo_add_wf(*old(self), self, k, tv);
            assert(self.spec_todos(k).take(s0.len() as int) =~= s0);
        }
        id
    }

    /// Cycles the status of the todo with the given id one step along the
    /// shared cycle. Returns false, and changes nothing, when the context
    /// has no todo with that id.
    pub fn toggle_todo(&mut self, context_key: &str, id: usize) -> (r: bool)
        requires
            old(self).wf(),
        ensures
            final(self).wf(),
            r == contains_id(old(self).spec_todos(context_key@), id as nat),
            r ==> final(self).spec_todos(context_key@) == ({
                let s = old(self).spec_todos(context_key@);
                let i = index_of_id(s, id as nat);
                s.update(i, with_status(s[i], spec_next_status(s[i].status)))
            }),
            !r ==> final(self).spec_todos(context_key@) == old(self).spec_todos(context_key@),
            forall|k2: Seq<char>|
                k2 != context_key@ ==> (#[trigger] final(self).spec_todos(k2)) == old(
                    self,
                ).spec_todos(k2),
            final(self).next_id == old(self).next_id,
    {
        let ck = context_key.to_owned();
        let ghost k = ck@;
        let ghost entries0 = self.contexts@;
        proof {
            lemma_context_lookup(entries0, k);
        }
        let ci = match find_key(&self.contexts, &ck) {
            Some(ci) => ci,
            None => {
                return false;
            },
        };
        let ti = match find_todo(&self.contexts[ci].items, id) {
            Some(ti) => ti,
            None => {
                return false;
            },
        };
        proof {
            assert(entries0[ci as int].items.deep_view().len() == entries0[ci as int].items@.len());
            lemma_index_of_id_char(entries0[ci as int].items.deep_view(), id as nat);
        }
        let mut entry = self.contexts.remove(ci);
        let ghost items0 = entry.items@;
        let mut t = entry.items.remove(ti);
        let ghost tv0 = t@;
        let ns = next_todo_status(t.status);
        t.status = ns;
        proof {
            assert(t@ == with_status(tv0, spec_next_status(tv0.status)));
        }
        entry.items.insert(ti, t);
        self.contexts.insert(ci, entry);
        proof {
            lemma_todo_payload_update(*old(self), self, k, entries0, ci as int, ti as int, items0);
        }
        true
    }

    /// Sets the status of the todo with the given id. Returns false, and
    /// changes nothing, when the context has no todo with that id.
    pub fn set_todo_status(&mut self, context_key: &str, id: usize, status: TodoStatus) -> (r:
        bool)
        requires
            old(self).wf(),
        ensures
            final(self).wf(),
            r == contains_id(old(self).spec_todos(context_key@), id as nat),
            r ==> final(self).spec_todos(context_key@) == ({
                let s = old(self).spec_todos(context_key@);
                let i = index_of_id(s, id as nat);
                s.update(i, with_status(s[i], todo_status_view(status)))
            }),
            !r ==> final(self).spec_todos(context_key@) == old(self).spec_todos(context_key@),
            forall|k2: Seq<char>|
                k2 != context_key@ ==> (#[trigger] final(self).spec_todos(k2)) == old(
                    self,
                ).spec_todos(k2),
            final(self).next_id == old(self).next_id,
    {
        let ck = context_key.to_owned();
        let ghost k = ck@;
        let ghost entries0 = self.contexts@;
        proof {
            lemma_context_lookup(entries0, k);
        }
        let ci = match find_key(&self.contexts, &ck) {
            Some(ci) => ci,
            None => {
                return false;
            },
        };
        let ti = match find_todo(&self.contexts[ci].items, id) {
            Some(ti) => ti,
            None => {
                return false;
            },
        };
        proof {
            assert(entries0[ci as int].items.deep_view().len() == entries0[ci as int].items@.len());
            lemma_index_of_id_char(entries0[ci as int].items.deep_view(), id as nat);
        }
        let mut entry = self.contexts.remove(ci);
        let ghost items0 = entry.items@;
        let mut t = entry.items.remove(ti);
        let ghost tv0 = t@;
        t.status = status;
        proof {
            assert(t@ == with_status(tv0, todo_status_view(status)));
        }
        entry.items.insert(ti, t);
        self.contexts.insert(ci, entry);
        proof {
            lemma_todo_payload_update(*old(self), self, k, entries0, ci as int, ti as int, items0);
        }
        true
    }

    /// Removes the todo with the given id outright (this store keeps no
    /// undo queue). Returns false, and changes nothing, when the context
    /// has no todo with that id.
    pub fn remove_todo(&mut self, context_key: &str, id: usize) -> (r: bool)
        requires
            old(self).wf(),
        ensures
            final(self).wf(),
            r == contains_id(old(self).spec_todos(context_key@), id as nat),
            r ==> final(self).spec_todos(context_key@) == old(self).spec_todos(
                context_key@,
            ).remove(index_of_id(old(self).spec_todos(context_key@), id as nat)),
            !r ==> final(self).spec_todos(context_key@) == old(self).spec_todos(context_key@),
            forall|k2: Seq<char>|
                k2 != context_key@ ==> (#[trigger] final(self).spec_todos(k2)) == old(
                    self,
                ).spec_todos(k2),
            final(self).next_id == old(self).next_id,
    {
        let ck = context_key.to_owned();
        let ghost k = ck@;
        let ghost entries0 = self.contexts@;
        let ghost s0 = self.spec_todos(k);
        proof {
            lemma_context_lookup(entries0, k);
        }
        let ci = match find_key(&self.contexts, &ck) {
            Some(ci) => ci,
            None => {
                return false;
            },
        };
        let ti = match find_todo(&self.contexts[ci].items, id) {
            Some(ti) => ti,
            None => {
                return false;
            },
        };
        proof {
            assert(entries0[ci as int].items.deep_view().len() == entries0[ci as int].items@.len());
            lemma_index_of_id_char(entries0[ci as int].items.deep_view(), id as nat);
        }
        let mut entry = self.contexts.remove(ci);
        let ghost items0 = entry.items@;
        let t = entry.items.remove(ti);
        self.contexts.insert(ci, entry);
        proof {
            let e = self.contexts@[ci as int];
            assert(self.contexts@ =~= entries0.update(ci as int, e));
            let dv0 = entries0[ci as int].items.deep_view();
            assert(e.items@ == items0.remove(ti as int));
            assert(e.items.deep_view().len() == e.items@.len());
            assert forall|j: int|
                0 <= j < e.items@.len() implies e.items.deep_view()[j] == dv0.remove(
                ti as int,
            )[j] by {
                if j < ti {
                    assert(e.items@[j] == items0[j]);
                } else {
                    assert(e.items@[j] == items0[j + 1]);
                }
            }
            assert(e.items.deep_view() =~= dv0.remove(ti as int));
            lemma_context_update(entries0, ci as int, e);
            assert(self.spec_todos(k) == s0.remove(ti as int));
            assert forall|k2: Seq<char>|
                k2 != k implies #[trigger] self.spec_todos(k2) == items_at(entries0, k2) by {
                assert(items_at(entries0.update(ci as int, e), k2) == items_at(entries0, k2));
            }
            lemma_todo_remove_wf(*old(self), self, k, ti as int);
        }
        true
    }

    /// Replaces, verbatim, the text of the todo with the given id. Returns
    /// false, and changes nothing, when the context has no todo with that
    /// id.
    pub fn edit_todo(&mut self, context_key: &str, id: usize, new_text: String) -> (r: bool)
        requires
            old(self).wf(),
        ensures
            final(self).wf(),
            r == contains_id(old(self).spec_todos(context_key@), id as nat),
            r ==> final(self).spec_todos(context_key@) == ({
                let s = old(self).spec_todos(context_key@);
                let i = index_of_id(s, id as nat);
                s.update(i, with_text(s[i], new_text@))
            }),
            !r ==> final(self).spec_todos(context_key@) == old(self).spec_todos(context_key@),
            forall|k2: Seq<char>|
                k2 != context_key@ ==> (#[trigger] final(self).spec_todos(k2)) == old(
                    self,
                ).spec_todos(k2),
            final(self).next_id == old(self).next_id,
    {
        let ck = context_key.to_owned();
        let ghost k = ck@;
        let ghost entries0 = self.contexts@;
        proof {
            lemma_context_lookup(entries0, k);
        }
        let ci = match find_key(&self.contexts, &ck) {
            Some(ci) => ci,
            None => {
                return false;
            },
        };
        let ti = match find_todo(&self.contexts[ci].items, id) {
            Some(ti) => ti,
            None => {
                return false;
            },
        };
        proof {
            assert(entries0[ci as int].items.deep_view().len() == entries0[ci as int].items@.len());
            lemma_index_of_id_char(entries0[ci as int].items.deep_view(), id as nat);
        }
        let mut entry = self.contexts.remove(ci);
        let ghost items0 = entry.items@;
        let mut t = entry.items.remove(ti);
        let ghost tv0 = t@;
        let ghost new_text_view = new_text@;
        t.text = new_text;
        proof {
            assert(t@ == with_text(tv0, new_text_view));
        }
        entry.items.insert(ti, t);
        self.contexts.insert(ci, entry);
        proof {
            lemma_todo_payload_update(*old(self), self, k, entries0, ci as int, ti as int, items0);
        }
        true
    }
}

/// Advances a todo status one step along the shared cycle.
pub fn next_todo_status(s: TodoStatus) -> (r: TodoStatus)
    ensures
        todo_status_view(r) == spec_next_status(todo_status_view(s)),
{
    match s {
        TodoStatus::NotStarted => TodoStatus::InProgress,
        TodoStatus::InProgress => TodoStatus::Completed,
        TodoStatus::Completed => TodoStatus::NotStarted,
    }
}

/// Scans a todo list for the first todo carrying the given id.
fn find_todo(items: &Vec<Todo>, id: usize) -> (r: Option<usize>)
    ensures
        match r {
            Some(i) => i as int == index_of_id(items.deep_view(), id as nat),
            None => index_of_id(items.deep_view(), id as nat) < 0,
        },
{
    proof {
        lemma_index_of_id_char(items.deep_view(), id as nat);
    }
    let n = items.len();
    let mut i: usize = 0;
    while i < n
        invariant
            n == items@.len(),
            0 <= i <= n,
            forall|j: int| 0 <= j < i ==> items.deep_view()[j].id != id as nat,
        decreases n - i,
    {
        if items[i].id == id {
            proof {
                lemma_index_of_id_char(items.deep_view(), id as nat);
                assert(items.deep_view()[i as int].id == id as nat);
            }
            return Some(i);
        }
        proof {
            assert(items.deep_view()[i as int].id != id as nat);
        }
        i += 1;
    }
    None
}

/// Copies a todo list, preserving every todo's view.
fn clone_todos(items: &Vec<Todo>) -> (r: Vec<Todo>)
    ensures
        r.deep_view() == items.deep_view(),
{
    let n = items.len();
    let mut r: Vec<Todo> = Vec::new();
    let mut i: usize = 0;
    proof {
        assert(r.deep_view() =~= items.deep_view().take(0));
    }
    while i < n
        invariant
            n == items@.len(),
            0 <= i <= n,
            r.deep_view() == items.deep_view().take(i as int),
        decreases n - i,
    {
        let ghost r0 = r@;
        proof {
            assert(items.deep_view().len() == items@.len());
            assert(items.deep_view().take(i as int).len() == i);
            assert(r0.len() == i);
        }
        r.push(items[i].clone());
        proof {
            assert forall|j: int| 0 <= j < r@.len() implies r.deep_view()[j] == items.deep_view()
                .take(i + 1)[j] by {
                if j < i {
                    assert(r@[j] == r0[j]);
                    assert(r0[j].deep_view() == items.deep_view().take(i as int)[j]);
                } else {
                    assert(r@[j].deep_view() == items.deep_view()[i as int]);
                }
            }
            assert(r.deep_view() =~= items.deep_view().take(i + 1));
        }
        i += 1;
    }
    proof {
        assert(items.deep_view().take(n as int) =~= items.deep_view());
    }
    r
}

/// After appending one fresh todo under one key and stepping the counter,
/// the invariant still holds.
proof fn lemma_todo_add_wf(pre: TodoStorage, post: &TodoStorage, k: Seq<char>, tv: TaskView)
    requires
        pre.wf(),
        pre.next_id < usize::MAX,
        tv.id == pre.next_id as nat,
        post.next_id == pre.next_id + 1,
        post.spec_todos(k) == pre.spec_todos(k).push(tv),
        forall|k2: Seq<char>| k2 != k ==> (#[trigger] post.spec_todos(k2)) == pre.spec_todos(k2),
    ensures
        post.wf(),
{
    let b = post.next_id as nat;
    assert forall|k2: Seq<char>| unique_ids(#[trigger] post.spec_todos(k2)) by {
        if k2 == k {
            let s = pre.spec_todos(k);
            let s2 = post.spec_todos(k);
            assert forall|i: int, j: int|
                0 <= i < j < s2.len() implies (#[trigger] s2[i]).id != (#[trigger] s2[j]).id by {
                if j < s.len() {
                    assert(unique_ids(s));
                } else {
                    assert(s2[j] == tv);
                    assert(ids_below(s, pre.next_id as nat));
                    assert(s2[i] == s[i]);
                }
            }
        } else {
            assert(unique_ids(pre.spec_todos(k2)));
        }
    }
    assert forall|k2: Seq<char>| ids_below(#[trigger] post.spec_todos(k2), b) by {
        let s = pre.spec_todos(k2);
        assert(ids_below(s, pre.next_id as nat));
        if k2 == k {
            let s2 = post.spec_todos(k);
            assert forall|i: int| 0 <= i < s2.len() implies (#[trigger] s2[i]).id < b by {
                if i < s.len() {
                    assert(s2[i] == s[i]);
                    assert(s[i].id < pre.next_id as nat);
                } else {
                    assert(s2[i] == tv);
                }
            }
        } else {
            assert forall|i: int| 0 <= i < s.len() implies (#[trigger] s[i]).id < b by {
                assert(s[i].id < pre.next_id as nat);
            }
        }
    }
}

/// After rewriting, in place, the payload of the todo at one position of
/// one context (its id untouched), the invariant still holds and every
/// other context is untouched.
proof fn lemma_todo_payload_update(
    pre: TodoStorage,
    post: &TodoStorage,
    k: Seq<char>,
    entries0: Seq<ContextEntry<Todo>>,
    ci: int,
    ti: int,
    items0: Seq<Todo>,
)
    requires
        pre.wf(),
        entries0 == pre.contexts@,
        ci == key_index(entries0, k),
        0 <= ci < entries0.len(),
        entries0[ci].key@ == k,
        items0 == entries0[ci].items@,
        0 <= ti < items0.len(),
        post.next_id == pre.next_id,
        post.contexts@ == entries0.remove(ci).insert(ci, post.contexts@[ci]),
        post.contexts@[ci].key == entries0[ci].key,
        post.contexts@[ci].items@ == items0.remove(ti).insert(ti, post.contexts@[ci].items@[ti]),
        post.contexts@[ci].items@[ti]@.id == items0[ti]@.id,
    ensures
        post.wf(),
        post.spec_todos(k) == pre.spec_todos(k).update(ti, post.contexts@[ci].items@[ti]@),
        forall|k2: Seq<char>| k2 != k ==> (#[trigger] post.spec_todos(k2)) == pre.spec_todos(k2),
{
    let e = post.contexts@[ci];
    let tv = e.items@[ti]@;
    lemma_context_lookup(entries0, k);
    assert(post.contexts@ =~= entries0.update(ci, e));
    assert(e.items@ =~= items0.update(ti, e.items@[ti]));
    let dv0 = entries0[ci].items.deep_view();
    assert(dv0.len() == items0.len());
    assert(e.items.deep_view().len() == e.items@.len());
    assert forall|j: int| 0 <= j < e.items@.len() implies e.items.deep_view()[j] == dv0.update(
        ti,
        tv,
    )[j] by {
        if j != ti {
            assert(e.items@[j] == items0[j]);
        }
    }
    assert(e.items.deep_view() =~= dv0.update(ti, tv));
    lemma_context_update(entries0, ci, e);
    assert(post.spec_todos(k) == pre.spec_todos(k).update(ti, tv));
    assert forall|k2: Seq<char>|
        k2 != k implies (#[trigger] post.spec_todos(k2)) == pre.spec_todos(k2) by {
        assert(items_at(entries0.update(ci, e), k2) == items_at(entries0, k2));
    }
    let s = pre.spec_todos(k);
    let s2 = post.spec_todos(k);
    assert forall|k2: Seq<char>| unique_ids(#[trigger] post.spec_todos(k2)) by {
        if k2 == k {
            assert(unique_ids(s));
            assert forall|a: int, b: int|
                0 <= a < b < s2.len() implies (#[trigger] s2[a]).id != (#[trigger] s2[b]).id by {
                assert(s2[a].id == s[a].id);
                assert(s2[b].id == s[b].id);
            }
        } else {
            assert(unique_ids(pre.spec_todos(k2)));
        }
    }
    assert forall|k2: Seq<char>| ids_below(#[trigger] post.spec_todos(k2), post.next_id as nat) by {
        assert(ids_below(pre.spec_todos(k2), pre.next_id as nat));
        if k2 == k {
            assert forall|a: int|
                0 <= a < s2.len() implies (#[trigger] s2[a]).id < post.next_id as nat by {
                assert(s2[a].id == s[a].id);
            }
        }
    }
}

/// After removing the todo at one position of one context, the invariant
/// still holds.
proof fn lemma_todo_remove_wf(pre: TodoStorage, post: &TodoStorage, k: Seq<char>, ti: int)
    requires
        pre.wf(),
        post.next_id == pre.next_id,
        0 <= ti < pre.spec_todos(k).len(),
        post.spec_todos(k) == pre.spec_todos(k).remove(ti),
        forall|k2: Seq<char>| k2 != k ==> (#[trigger] post.spec_todos(k2)) == pre.spec_todos(k2),
    ensures
        post.wf(),
{
    let s = pre.spec_todos(k);
    let s2 = post.spec_todos(k);
    let b = post.next_id as nat;
    assert forall|k2: Seq<char>| unique_ids(#[trigger] post.spec_todos(k2)) by {
        if k2 == k {
            assert(unique_ids(s));
            assert forall|a: int, b2: int|
                0 <= a < b2 < s2.len() implies (#[trigger] s2[a]).id != (#[trigger] s2[b2]).id by {
                let a2: int = if a < ti {
                    a
                } else {
                    a + 1
                };
                let b3: int = if b2 < ti {
                    b2
                } else {
                    b2 + 1
                };
                assert(s2[a] == s[a2]);
                assert(s2[b2] == s[b3]);
                assert(s[a2].id != s[b3].id);
            }
        } else {
            assert(unique_ids(pre.spec_todos(k2)));
        }
    }
    assert forall|k2: Seq<char>| ids_below(#[trigger] post.spec_todos(k2), b) by {
        assert(ids_below(pre.spec_todos(k2), b));
        if k2 == k {
            assert forall|a: int| 0 <= a < s2.len() implies (#[trigger] s2[a]).id < b by {
                let a2: int = if a < ti {
                    a
                } else {
                    a + 1
                };
                assert(s2[a] == s[a2]);
                assert(s[a2].id < b);
            }
        }
    }
}

} // verus!
