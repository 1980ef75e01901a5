//! The local backend: the whole store held in memory as one structure.
//!
//! The caller (which persists the structure as a single document) loads it
//! once, mutates it through the operations here, and rewrites its document
//! after every mutation. All invariants — id freshness, per-context id
//! uniqueness, the undo bound — are maintained by the operations
//! themselves.

use vstd::prelude::*;

use crate::ctx::{
    find_key, items_at, key_index, lemma_context_lookup, lemma_context_push,
    lemma_context_update, ContextEntry,
};
use crate::model::{
    disjoint_ids, ids_below, index_of_id, lemma_index_of_id_char, park, swap_adjacent,
    unique_ids, with_status, with_text,
};
use crate::store::TaskStorage;
use crate::task::{next_status, spec_next_status, Task, TaskStatus, TaskView};

verus! {

/// In-memory state of the local backend: the context-to-tasks table, the
/// shared id counter, and the per-context undo queues (newest first).
#[derive(Debug)]
pub struct LocalTaskStorage {
    pub contexts: Vec<ContextEntry<Task>>,
    pub next_id: usize,
    pub deleted_tasks: Vec<ContextEntry<Task>>,
}

impl LocalTaskStorage {
    /// The live tasks of a context, in presentation order.
    pub open spec fn spec_tasks(&self, k: Seq<char>) -> Seq<TaskView> {
        items_at(self.contexts@, k)
    }

    /// The undo queue of a context, newest deletion first.
    pub open spec fn spec_deleted(&self, k: Seq<char>) -> Seq<TaskView> {
        items_at(self.deleted_tasks@, k)
    }

    /// The store's invariant: ids are unique within a context, never
    /// shared between a context's live list and its undo queue, always
    /// below the counter; and no undo queue holds more than three tasks.
    pub open spec fn wf(&self) -> bool {
        &&& self.next_id >= 1
        &&& forall|k: Seq<char>| unique_ids(#[trigger] self.spec_tasks(k))
        &&& forall|k: Seq<char>| unique_ids(#[trigger] self.spec_deleted(k))
        &&& forall|k: Seq<char>| disjoint_ids(self.spec_tasks(k), #[trigger] self.spec_deleted(k))
        &&& forall|k: Seq<char>| ids_below(#[trigger] self.spec_tasks(k), self.next_id as nat)
        &&& forall|k: Seq<char>| ids_below(#[trigger] self.spec_deleted(k), self.next_id as nat)
        &&& forall|k: Seq<char>| (#[trigger] self.spec_deleted(k)).len() <= 3
    }

    /// An empty store: no contexts, no queued deletions, ids starting at 1.
    pub fn new() -> (r: Self)
        ensures
            r.wf(),
            r.next_id == 1,
            forall|k: Seq<char>| (#[trigger] r.spec_tasks(k)) == Seq::<TaskView>::empty(),
            forall|k: Seq<char>| (#[trigger] r.spec_deleted(k)) == Seq::<TaskView>::empty(),
    {
        let r = LocalTaskStorage {
            contexts: Vec::new(),
            next_id: 1,
            deleted_tasks: Vec::new(),
        };
        proof {
            assert(r.contexts@ =~= Seq::<ContextEntry<Task>>::empty());
            assert(r.deleted_tasks@ =~= Seq::<ContextEntry<Task>>::empty());
        }
        r
    }
}

/// Scans a task list for the first task carrying the given id.
pub(crate) fn find_task_index(items: &Vec<Task>, id: usize) -> (r: Option<usize>)
    ensures
        match r {
            Some(i) => i as int == index_of_id(items.deep_view(), id as nat),
            None => index_of_id(items.deep_view(), id as nat) < 0,
        },
{
    proof {
        lemma_index_of_id_char(items.deep_view(), id as nat);
    }
    let n = items.len();
    let mut i: usize = 0;
    while i < n
        invariant
            n == items@.len(),
            0 <= i <= n,
            forall|j: int| 0 <= j < i ==> items.deep_view()[j].id != id as nat,
        decreases n - i,
    {
        if items[i].id == id {
            proof {
                lemma_index_of_id_char(items.deep_view(), id as nat);
                assert(items.deep_view()[i as int].id == id as nat);
            }
            return Some(i);
        }
        proof {
            assert(items.deep_view()[i as int].id != id as nat);
        }
        i += 1;
    }
    None
}

/// Copies a task list, preserving every task's view.
pub(crate) fn clone_tasks(items: &Vec<Task>) -> (r: Vec<Task>)
    ensures
        r.deep_view() == items.deep_view(),
{
    let n = items.len();
    let mut r: Vec<Task> = Vec::new();
    let mut i: usize = 0;
    proof {
        assert(r.deep_view() =~= items.deep_view().take(0));
    }
    while i < n
        invariant
            n == items@.len(),
            0 <= i <= n,
            r.deep_view() == items.deep_view().take(i as int),
        decreases n - i,
    {
        let ghost r0 = r@;
        proof {
            assert(items.deep_view().len() == items@.len());
            assert(items.deep_view().take(i as int).len() == i);
            assert(r0.len() == i);
        }
        r.push(items[i].clone());
        proof {
            assert(r@ == r0.push(r@[i as int]));
            assert(r@.len() == r0.len() + 1);
            assert forall|j: int| 0 <= j < r@.len() implies r.deep_view()[j] == items.deep_view()
                .take(i + 1)[j] by {
                if j < i {
                    assert(r@[j] == r0[j]);
                    assert(r0[j].deep_view() == items.deep_view().take(i as int)[j]);
                } else {
                    assert(r@[j].deep_view() == items.deep_view()[i as int]);
                }
            }
            assert(r.deep_view() =~= items.deep_view().take(i + 1));
        }
        i += 1;
    }
    proof {
        assert(items.deep_view().take(n as int) =~= items.deep_view());
    }
    r
}

impl TaskStorage for LocalTaskStorage {
    open spec fn inv(&self) -> bool {
        self.wf()
    }

    open spec fn tasks(&self, k: Seq<char>) -> Seq<TaskView> {
        self.spec_tasks(k)
    }

    open spec fn deleted(&self, k: Seq<char>) -> Seq<TaskView> {
        self.spec_deleted(k)
    }

    open spec fn counter(&self) -> nat {
        self.next_id as nat
    }

    proof fn undo_bound(&self, k: Seq<char>) {
    }

    proof fn ids_bounded(&self, k: Seq<char>) {
    }

    fn get_tasks(&self, context_key: &str) -> (r: Vec<Task>) {
        let ck = context_key.to_owned();
        proof {
            lemma_context_lookup(self.contexts@, ck@);
        }
        match find_key(&self.contexts, &ck) {
            Some(ci) => clone_tasks(&self.contexts[ci].items),
            None => {
                let r: Vec<Task> = Vec::new();
                proof {
                    assert(r.deep_view() =~= Seq::<TaskView>::empty());
                }
                r
            },
        }
    }

    fn add_task(&mut self, context_key: &str, text: String) -> (r: usize) {
        let ck = context_key.to_owned();
        let ghost k = ck@;
        let ghost entries0 = self.contexts@;
        let ghost s0 = self.spec_tasks(k);
        proof {
            lemma_context_lookup(entries0, k);
        }
        let t = Task::new(self.next_id, text);
        let ghost tv = t@;
        let id = self.next_id;
        match find_key(&self.contexts, &ck) {
            Some(ci) => {
                let mut entry = self.contexts.remove(ci);
                let ghost items0 = entry.items.deep_view();
                entry.items.push(t);
                proof {
                    assert(entry.items.deep_view() =~= items0.push(tv));
                }
                self.contexts.insert(ci, entry);
                proof {
                    let e = self.contexts@[ci as int];
                    assert(self.contexts@ =~= entries0.update(ci as int, e));
                    lemma_context_update(entries0, ci as int, e);
                    assert(self.spec_tasks(k) == s0.push(tv));
                    assert forall|k2: Seq<char>|
                        k2 != k implies #[trigger] self.spec_tasks(k2) == items_at(
                        entries0,
                        k2,
                    ) by {
                        assert(items_at(entries0.update(ci as int, e), k2) == items_at(
                            entries0,
                            k2,
                        ));
                    }
                }
            },
            None => {
                let mut items: Vec<Task> = Vec::new();
                items.push(t);
                let e = ContextEntry { key: ck, items };
                proof {
                    assert(e.items.deep_view() =~= Seq::<TaskView>::empty().push(tv));
                }
                self.contexts.push(e);
                proof {
                    let e2 = self.contexts@.last();
                    assert(e2.key@ == k);
                    lemma_context_push(entries0, e2);
                    assert(self.contexts@ == entries0.push(e2));
                    assert(s0 =~= Seq::<TaskView>::empty());
                    assert(self.spec_tasks(k) == s0.push(tv));
                    assert forall|k2: Seq<char>|
                        k2 != k implies #[trigger] self.spec_tasks(k2) == items_at(
                        entries0,
                        k2,
                    ) by {
                        assert(k2 != e2.key@);
                        lemma_context_push(entries0, e2);
                        assert(key_index(entries0.push(e2), k2) == key_index(entries0, k2)
                            && items_at(entries0.push(e2), k2) == items_at(entries0, k2));
                    }
                }
            },
        }
        self.next_id = id + 1;
        proof {
            lemma_add_wf(*old(self), *self, k, tv);
            assert(self.spec_tasks(k).take(s0.len() as int) =~= s0);
        }
        id
    }

    fn toggle_task(&mut self, context_key: &str, id: usize) -> (r: bool) {
        let ck = context_key.to_owned();
        let ghost k = ck@;
        let ghost entries0 = self.contexts@;
        let ghost s0 = self.spec_tasks(k);
        proof {
            lemma_context_lookup(entries0, k);
        }
        let ci = match find_key(&self.contexts, &ck) {
            Some(ci) => ci,
            None => {
                return false;
            },
        };
        let ti = match find_task_index(&self.contexts[ci].items, id) {
            Some(ti) => ti,
            None => {
                return false;
            },
        };
        proof {
            assert(entries0[ci as int].items.deep_view().len() == entries0[ci as int].items@.len());
            lemma_index_of_id_char(entries0[ci as int].items.deep_view(), id as nat);
        }
        let mut entry = self.contexts.remove(ci);
        let ghost items0 = entry.items@;
        let mut t = entry.items.remove(ti);
        let ghost tv0 = t@;
        let ns = next_status(t.status);
        t.status = ns;
        proof {
            assert(t@ == with_status(tv0, spec_next_status(tv0.status)));
        }
        entry.items.insert(ti, t);
        self.contexts.insert(ci, entry);
        proof {
            lemma_payload_update(*old(self), self, k, entries0, ci as int, ti as int, items0);
        }
        true
    }

    fn set_task_status(&mut self, context_key: &str, id: usize, status: TaskStatus) -> (r: bool) {
        let ck = context_key.to_owned();
        let ghost k = ck@;
        let ghost entries0 = self.contexts@;
        let ghost s0 = self.spec_tasks(k);
        proof {
            lemma_context_lookup(entries0, k);
        }
        let ci = match find_key(&self.contexts, &ck) {
            Some(ci) => ci,
            None => {
                return false;
            },
        };
        let ti = match find_task_index(&self.contexts[ci].items, id) {
            Some(ti) => ti,
            None => {
                return false;
            },
        };
        proof {
            assert(entries0[ci as int].items.deep_view().len() == entries0[ci as int].items@.len());
            lemma_index_of_id_char(entries0[ci as int].items.deep_view(), id as nat);
        }
        let mut entry = self.contexts.remove(ci);
        let ghost items0 = entry.items@;
        let mut t = entry.items.remove(ti);
        let ghost tv0 = t@;
        t.status = status;
        proof {
            assert(t@ == with_status(tv0, status));
        }
        entry.items.insert(ti, t);
        self.contexts.insert(ci, entry);
        proof {
            lemma_payload_update(*old(self), self, k, entries0, ci as int, ti as int, items0);
        }
        true
    }

    fn edit_task(&mut self, context_key: &str, id: usize, new_text: String) -> (r: bool) {
        let ck = context_key.to_owned();
        let ghost k = ck@;
        let ghost entries0 = self.contexts@;
        let ghost s0 = self.spec_tasks(k);
        proof {
            lemma_context_lookup(entries0, k);
        }
        let ci = match find_key(&self.contexts, &ck) {
            Some(ci) => ci,
            None => {
                return false;
            },
        };
        let ti = match find_task_index(&self.contexts[ci].items, id) {
            Some(ti) => ti,
            None => {
                return false;
            },
        };
        proof {
            assert(entries0[ci as int].items.deep_view().len() == entries0[ci as int].items@.len());
            lemma_index_of_id_char(entries0[ci as int].items.deep_view(), id as nat);
        }
        let mut entry = self.contexts.remove(ci);
        let ghost items0 = entry.items@;
        let mut t = entry.items.remove(ti);
        let ghost tv0 = t@;
        let ghost new_text_view = new_text@;
        t.text = new_text;
        proof {
            assert(t@ == with_text(tv0, new_text_view));
        }
        entry.items.insert(ti, t);
        self.contexts.insert(ci, entry);
        proof {
            lemma_payload_update(*old(self), self, k, entries0, ci as int, ti as int, items0);
        }
        true
    }

    fn remove_task(&mut self, context_key: &str, id: usize) -> (r: bool) {
        let ck = context_key.to_owned();
        let ghost k = ck@;
        let ghost entries0 = self.contexts@;
        let ghost s0 = self.spec_tasks(k);
        let ghost d0 = self.spec_deleted(k);
        proof {
            lemma_context_lookup(entries0, k);
        }
        let ci = match find_key(&self.contexts, &ck) {
            Some(ci) => ci,
            None => {
                return false;
            },
        };
        let ti = match find_task_index(&self.contexts[ci].items, id) {
            Some(ti) => ti,
            None => {
                return false;
            },
        };
        proof {
            assert(entries0[ci as int].items.deep_view().len() == entries0[ci as int].items@.len());
            lemma_index_of_id_char(entries0[ci as int].items.deep_view(), id as nat);
        }
        let mut entry = self.contexts.remove(ci);
        let ghost items0 = entry.items@;
        let t = entry.items.remove(ti);
        let ghost tv = t@;
        self.contexts.insert(ci, entry);
        proof {
            let e = self.contexts@[ci as int];
            assert(self.contexts@ =~= entries0.update(ci as int, e));
            let dv0 = entries0[ci as int].items.deep_view();
            assert(e.items@ == items0.remove(ti as int));
            assert(e.items.deep_view().len() == e.items@.len());
            assert forall|j: int|
                0 <= j < e.items@.len() implies e.items.deep_view()[j] == dv0.remove(
                ti as int,
            )[j] by {
                if j < ti {
                    assert(e.items@[j] == items0[j]);
                } else {
                    assert(e.items@[j] == items0[j + 1]);
                }
            }
            assert(e.items.deep_view() =~= dv0.remove(ti as int));
            lemma_context_update(entries0, ci as int, e);
            assert(self.spec_tasks(k) == s0.remove(ti as int));
            assert forall|k2: Seq<char>|
                k2 != k implies #[trigger] self.spec_tasks(k2) == items_at(entries0, k2) by {
                assert(items_at(entries0.update(ci as int, e), k2) == items_at(entries0, k2));
            }
            assert(tv == s0[ti as int]);
        }
        let ghost dentries0 = self.deleted_tasks@;
        proof {
            lemma_context_lookup(dentries0, k);
        }
        match find_key(&self.deleted_tasks, &ck) {
            Some(di) => {
                let mut dentry = self.deleted_tasks.remove(di);
                let ghost ditems0 = dentry.items@;
                dentry.items.insert(0, t);
                if dentry.items.len() > 3 {
                    dentry.items.truncate(3);
                }
                self.deleted_tasks.insert(di, dentry);
                proof {
                    let de = self.deleted_tasks@[di as int];
                    assert(self.deleted_tasks@ =~= dentries0.update(di as int, de));
                    let ddv0 = dentries0[di as int].items.deep_view();
                    assert(ddv0.len() == ditems0.len());
                    assert(de.items.deep_view().len() == de.items@.len());
                    assert forall|j: int|
                        0 <= j < de.items@.len() implies de.items.deep_view()[j] == park(
                        ddv0,
                        tv,
                    )[j] by {
                        if j > 0 {
                            assert(de.items@[j] == ditems0[j - 1]);
                        }
                    }
                    assert(de.items.deep_view() =~= park(ddv0, tv));
                    lemma_context_update(dentries0, di as int, de);
                    assert(self.spec_deleted(k) == park(d0, tv));
                    assert forall|k2: Seq<char>|
                        k2 != k implies #[trigger] self.spec_deleted(k2) == items_at(
                        dentries0,
                        k2,
                    ) by {
                        assert(items_at(dentries0.update(di as int, de), k2) == items_at(
                            dentries0,
                            k2,
                        ));
                    }
                }
            },
            None => {
                let mut items: Vec<Task> = Vec::new();
                items.push(t);
                let de = ContextEntry { key: ck, items };
                proof {
                    assert(de.items.deep_view() =~= Seq::<TaskView>::empty().push(tv));
                }
                self.deleted_tasks.push(de);
                proof {
                    let de2 = self.deleted_tasks@.last();
                    assert(de2.key@ == k);
                    lemma_context_push(dentries0, de2);
                    assert(d0 =~= Seq::<TaskView>::empty());
                    assert(self.spec_deleted(k) =~= park(d0, tv));
                    assert forall|k2: Seq<char>|
                        k2 != k implies #[trigger] self.spec_deleted(k2) == items_at(
                        dentries0,
                        k2,
                    ) by {
                        assert(key_index(dentries0.push(de2), k2) == key_index(dentries0, k2));
                        assert(items_at(dentries0.push(de2), k2) == items_at(dentries0, k2));
                    }
                }
            },
        }
        proof {
            lemma_remove_wf(*old(self), self, k, ti as int);
        }
        true
    }

    fn undo_delete(&mut self, context_key: &str) -> (r: Option<Task>)
        ensures
            r matches Some(t) ==> final(self).tasks(context_key@) == old(self).tasks(
                context_key@,
            ).push(t@),
    {
        let ck = context_key.to_owned();
        let ghost k = ck@;
        let ghost entries0 = self.contexts@;
        let ghost dentries0 = self.deleted_tasks@;
        let ghost s0 = self.spec_tasks(k);
        let ghost d0 = self.spec_deleted(k);
        proof {
            lemma_context_lookup(entries0, k);
            lemma_context_lookup(dentries0, k);
        }
        let di = match find_key(&self.deleted_tasks, &ck) {
            Some(di) => di,
            None => {
                return None;
            },
        };
        proof {
            assert(dentries0[di as int].items.deep_view().len() == dentries0[di as int].items@.len());
        }
        if self.deleted_tasks[di].items.len() == 0 {
            return None;
        }
        let mut dentry = self.deleted_tasks.remove(di);
        let ghost ditems0 = dentry.items@;
        let t = dentry.items.remove(0);
        let ghost tv = t@;
        self.deleted_tasks.insert(di, dentry);
        proof {
            let de = self.deleted_tasks@[di as int];
            assert(self.deleted_tasks@ =~= dentries0.update(di as int, de));
            let ddv0 = dentries0[di as int].items.deep_view();
            assert(de.items@ == ditems0.remove(0));
            assert(de.items.deep_view().len() == de.items@.len());
            assert forall|j: int|
                0 <= j < de.items@.len() implies de.items.deep_view()[j] == ddv0.drop_first()[j] by {
                assert(de.items@[j] == ditems0[j + 1]);
            }
            assert(de.items.deep_view() =~= ddv0.drop_first());
            lemma_context_update(dentries0, di as int, de);
            assert(self.spec_deleted(k) == d0.drop_first());
            assert forall|k2: Seq<char>|
                k2 != k implies #[trigger] self.spec_deleted(k2) == items_at(dentries0, k2) by {
                assert(items_at(dentries0.update(di as int, de), k2) == items_at(dentries0, k2));
            }
            assert(tv == d0[0]);
        }
        let restored = t.clone();
        match find_key(&self.contexts, &ck) {
            Some(ci) => {
                let mut entry = self.contexts.remove(ci);
                let ghost citems0 = entry.items@;
                entry.items.push(t);
                proof {
                    assert(entry.items.deep_view() =~= entries0[key_index(entries0, k)]
                        .items
                        .deep_view()
                        .push(tv));
                }
                self.contexts.insert(ci, entry);
                proof {
                    let e = self.contexts@[ci as int];
                    assert(self.contexts@ =~= entries0.update(ci as int, e));
                    lemma_context_update(entries0, ci as int, e);
                    assert(self.spec_tasks(k) == s0.push(tv));
                    assert forall|k2: Seq<char>|
                        k2 != k implies #[trigger] self.spec_tasks(k2) == items_at(
                        entries0,
                        k2,
                    ) by {
                        assert(items_at(entries0.update(ci as int, e), k2) == items_at(
                            entries0,
                            k2,
                        ));
                    }
                }
            },
            None => {
                let mut items: Vec<Task> = Vec::new();
                items.push(t);
                let e = ContextEntry { key: ck, items };
                proof {
                    assert(e.items.deep_view() =~= Seq::<TaskView>::empty().push(tv));
                }
                self.contexts.push(e);
                proof {
                    let e2 = self.contexts@.last();
                    assert(e2.key@ == k);
                    lemma_context_push(entries0, e2);
                    assert(s0 =~= Seq::<TaskView>::empty());
                    assert(self.spec_tasks(k) == s0.push(tv));
                    assert forall|k2: Seq<char>|
                        k2 != k implies #[trigger] self.spec_tasks(k2) == items_at(
                        entries0,
                        k2,
                    ) by {
                        assert(key_index(entries0.push(e2), k2) == key_index(entries0, k2));
                        assert(items_at(entries0.push(e2), k2) == items_at(entries0, k2));
                    }
                }
            },
        }
        proof {
            lemma_undo_wf(*old(self), self, k);
            broadcast use vstd::seq_lib::group_to_multiset_ensures;
            assert(s0.push(tv).to_multiset() =~= s0.to_multiset().insert(tv));
        }
        Some(restored)
    }

    fn move_task_up(&mut self, context_key: &str, id: usize) -> (r: bool)
        ensures
            r == (index_of_id(old(self).tasks(context_key@), id as nat) > 0),
            r ==> final(self).tasks(context_key@) == swap_adjacent(
                old(self).tasks(context_key@),
                index_of_id(old(self).tasks(context_key@), id as nat),
            ),
    {
        let ck = context_key.to_owned();
        let ghost k = ck@;
        let ghost entries0 = self.contexts@;
        let ghost s0 = self.spec_tasks(k);
        proof {
            lemma_context_lookup(entries0, k);
        }
        let ci = match find_key(&self.contexts, &ck) {
            Some(ci) => ci,
            None => {
                return false;
            },
        };
        let ti = match find_task_index(&self.contexts[ci].items, id) {
            Some(ti) => ti,
            None => {
                return false;
            },
        };
        if ti == 0 {
            return false;
        }
        proof {
            assert(entries0[ci as int].items.deep_view().len() == entries0[ci as int].items@.len());
            lemma_index_of_id_char(entries0[ci as int].items.deep_view(), id as nat);
        }
        let mut entry = self.contexts.remove(ci);
        let ghost items0 = entry.items@;
        let t = entry.items.remove(ti);
        entry.items.insert(ti - 1, t);
        self.contexts.insert(ci, entry);
        proof {
            lemma_swap_step(*old(self), self, k, entries0, ci as int, ti as int, items0);
        }
        true
    }

    fn move_task_down(&mut self, context_key: &str, id: usize) -> (r: bool)
        ensures
            r == ({
                let s = old(self).tasks(context_key@);
                let i = index_of_id(s, id as nat);
                i >= 0 && i + 1 < s.len()
            }),
            r ==> final(self).tasks(context_key@) == swap_adjacent(
                old(self).tasks(context_key@),
                index_of_id(old(self).tasks(context_key@), id as nat) + 1,
            ),
    {
        let ck = context_key.to_owned();
        let ghost k = ck@;
        let ghost entries0 = self.contexts@;
        let ghost s0 = self.spec_tasks(k);
        proof {
            lemma_context_lookup(entries0, k);
        }
        let ci = match find_key(&self.contexts, &ck) {
            Some(ci) => ci,
            None => {
                return false;
            },
        };
        let ti = match find_task_index(&self.contexts[ci].items, id) {
            Some(ti) => ti,
            None => {
                return false;
            },
        };
        proof {
            assert(entries0[ci as int].items.deep_view().len() == entries0[ci as int].items@.len());
            lemma_index_of_id_char(entries0[ci as int].items.deep_view(), id as nat);
            assert((ti as int) < entries0[ci as int].items@.len());
        }
        let n = self.contexts[ci].items.len();
        if ti + 1 >= n {
            return false;
        }
        let mut entry = self.contexts.remove(ci);
        let ghost items0 = entry.items@;
        let t = entry.items.remove(ti);
        entry.items.insert(ti + 1, t);
        self.contexts.insert(ci, entry);
        proof {
            lemma_swap_step(*old(self), self, k, entries0, ci as int, ti as int + 1, items0);
        }
        true
    }
}

/// Exchanging two adjacent tasks of one context — the edit the move
/// operations perform as a remove followed by a reinsertion — yields
/// exactly `swap_adjacent` of that context's sequence, leaves every other
/// context alone, and preserves the invariant.
proof fn lemma_swap_step(
    pre: LocalTaskStorage,
    post: &LocalTaskStorage,
    k: Seq<char>,
    entries0: Seq<ContextEntry<Task>>,
    ci: int,
    i: int,
    items0: Seq<Task>,
)
    requires
        pre.wf(),
        entries0 == pre.contexts@,
        ci == key_index(entries0, k),
        0 <= ci < entries0.len(),
        entries0[ci].key@ == k,
        items0 == entries0[ci].items@,
        1 <= i < items0.len(),
        post.next_id == pre.next_id,
        post.deleted_tasks == pre.deleted_tasks,
        post.contexts@ == entries0.remove(ci).insert(ci, post.contexts@[ci]),
        post.contexts@[ci].key == entries0[ci].key,
        post.contexts@[ci].items@ == items0.remove(i).insert(i - 1, items0[i])
            || post.contexts@[ci].items@ == items0.remove(i - 1).insert(i, items0[i - 1]),
    ensures
        post.wf(),
        post.spec_tasks(k) == swap_adjacent(pre.spec_tasks(k), i),
        forall|k2: Seq<char>| k2 != k ==> (#[trigger] post.spec_tasks(k2)) == pre.spec_tasks(k2),
        forall|k2: Seq<char>| (#[trigger] post.spec_deleted(k2)) == pre.spec_deleted(k2),
{
    let e = post.contexts@[ci];
    let s = pre.spec_tasks(k);
    lemma_context_lookup(entries0, k);
    assert(post.contexts@ =~= entries0.update(ci, e));
    let dv0 = entries0[ci].items.deep_view();
    assert(dv0.len() == items0.len());
    assert(e.items@ =~= items0.update(i, items0[i - 1]).update(i - 1, items0[i]));
    assert(e.items.deep_view().len() == e.items@.len());
    assert forall|j: int|
        0 <= j < e.items@.len() implies e.items.deep_view()[j] == swap_adjacent(dv0, i)[j] by {
        if j == i {
            assert(e.items@[j] == items0[i - 1]);
        } else if j == i - 1 {
            assert(e.items@[j] == items0[i]);
        } else {
            assert(e.items@[j] == items0[j]);
        }
    }
    assert(e.items.deep_view() =~= swap_adjacent(dv0, i));
    lemma_context_update(entries0, ci, e);
    assert(post.spec_tasks(k) == swap_adjacent(s, i));
    assert forall|k2: Seq<char>|
        k2 != k implies (#[trigger] post.spec_tasks(k2)) == pre.spec_tasks(k2) by {
        assert(items_at(entries0.update(ci, e), k2) == items_at(entries0, k2));
    }
    let s2 = post.spec_tasks(k);
    let b = post.next_id as nat;
    assert(s2.len() == s.len());
    assert forall|k2: Seq<char>| unique_ids(#[trigger] post.spec_tasks(k2)) by {
        if k2 == k {
            assert forall|a: int, b2: int|
                0 <= a < b2 < s2.len() implies (#[trigger] s2[a]).id != (#[trigger] s2[b2]).id by {
                let a2: int = if a == i {
                    i - 1
                } else if a == i - 1 {
                    i
                } else {
                    a
                };
                let b3: int = if b2 == i {
                    i - 1
                } else if b2 == i - 1 {
                    i
                } else {
                    b2
                };
                assert(s2[a] == s[a2]);
                assert(s2[b2] == s[b3]);
                assert(s[a2].id != s[b3].id);
            }
        } else {
            assert(unique_ids(pre.spec_tasks(k2)));
        }
    }
    assert forall|k2: Seq<char>| unique_ids(#[trigger] post.spec_deleted(k2)) by {
        assert(unique_ids(pre.spec_deleted(k2)));
    }
    assert forall|k2: Seq<char>|
        disjoint_ids(post.spec_tasks(k2), #[trigger] post.spec_deleted(k2)) by {
        assert(disjoint_ids(pre.spec_tasks(k2), pre.spec_deleted(k2)));
        if k2 == k {
            let d = pre.spec_deleted(k2);
            assert forall|a: int, b2: int|
                0 <= a < s2.len() && 0 <= b2 < d.len() implies (#[trigger] s2[a]).id != (
            #[trigger] d[b2]).id by {
                let a2: int = if a == i {
                    i - 1
                } else if a == i - 1 {
                    i
                } else {
                    a
                };
                assert(s2[a] == s[a2]);
                assert(s[a2].id != d[b2].id);
            }
        }
    }
    assert forall|k2: Seq<char>| ids_below(#[trigger] post.spec_tasks(k2), b) by {
        assert(ids_below(pre.spec_tasks(k2), b));
        if k2 == k {
            assert forall|a: int| 0 <= a < s2.len() implies (#[trigger] s2[a]).id < b by {
                let a2: int = if a == i {
                    i - 1
                } else if a == i - 1 {
                    i
                } else {
                    a
                };
                assert(s2[a] == s[a2]);
                assert(s[a2].id < b);
            }
        }
    }
    assert forall|k2: Seq<char>| ids_below(#[trigger] post.spec_deleted(k2), b) by {
        assert(ids_below(pre.spec_deleted(k2), b));
    }
    assert forall|k2: Seq<char>| (#[trigger] post.spec_deleted(k2)).len() <= 3 by {
        assert(pre.spec_deleted(k2).len() <= 3);
    }
}

/// After moving the task at one position of one context's live list into
/// that context's undo queue (newest first, trimmed to three), the
/// invariant still holds.
proof fn lemma_remove_wf(pre: LocalTaskStorage, post: &LocalTaskStorage, k: Seq<char>, ti: int)
    requires
        pre.wf(),
        post.next_id == pre.next_id,
        0 <= ti < pre.spec_tasks(k).len(),
        post.spec_tasks(k) == pre.spec_tasks(k).remove(ti),
        post.spec_deleted(k) == park(pre.spec_deleted(k), pre.spec_tasks(k)[ti]),
        forall|k2: Seq<char>| k2 != k ==> (#[trigger] post.spec_tasks(k2)) == pre.spec_tasks(k2),
        forall|k2: Seq<char>|
            k2 != k ==> (#[trigger] post.spec_deleted(k2)) == pre.spec_deleted(k2),
    ensures
        post.wf(),
{
    let s = pre.spec_tasks(k);
    let d = pre.spec_deleted(k);
    let s2 = post.spec_tasks(k);
    let d2 = post.spec_deleted(k);
    let tv = s[ti];
    let b = post.next_id as nat;
    assert(unique_ids(s) && unique_ids(d) && disjoint_ids(s, d));
    assert(ids_below(s, b) && ids_below(d, b) && d.len() <= 3);
    assert(s2.len() == s.len() - 1);
    assert(d2.len() <= 3);
    assert(d2[0] == tv);
    assert forall|j: int| 1 <= j < d2.len() implies d2[j] == d[j - 1] by {}
    assert forall|k2: Seq<char>| unique_ids(#[trigger] post.spec_tasks(k2)) by {
        if k2 == k {
            assert forall|a: int, b2: int|
                0 <= a < b2 < s2.len() implies (#[trigger] s2[a]).id != (#[trigger] s2[b2]).id by {
                let a2: int = if a < ti { a } else { a + 1 };
                let b3: int = if b2 < ti { b2 } else { b2 + 1 };
                assert(s2[a] == s[a2]);
                assert(s2[b2] == s[b3]);
                assert(s[a2].id != s[b3].id);
            }
        } else {
            assert(unique_ids(pre.spec_tasks(k2)));
        }
    }
    assert forall|k2: Seq<char>| unique_ids(#[trigger] post.spec_deleted(k2)) by {
        if k2 == k {
            assert forall|a: int, b2: int|
                0 <= a < b2 < d2.len() implies (#[trigger] d2[a]).id != (#[trigger] d2[b2]).id by {
                if a == 0 {
                    assert(d2[a] == tv);
                    assert(d2[b2] == d[b2 - 1]);
                    assert(tv.id != d[b2 - 1].id);
                } else {
                    assert(d2[a] == d[a - 1]);
                    assert(d2[b2] == d[b2 - 1]);
                    assert(d[a - 1].id != d[b2 - 1].id);
                }
            }
        } else {
            assert(unique_ids(pre.spec_deleted(k2)));
        }
    }
    assert forall|k2: Seq<char>|
        disjoint_ids(post.spec_tasks(k2), #[trigger] post.spec_deleted(k2)) by {
        if k2 == k {
            assert forall|a: int, b2: int|
                0 <= a < s2.len() && 0 <= b2 < d2.len() implies (#[trigger] s2[a]).id != (
            #[trigger] d2[b2]).id by {
                let a2: int = if a < ti { a } else { a + 1 };
                assert(s2[a] == s[a2]);
                if b2 == 0 {
                    assert(d2[b2] == tv);
                    assert(a2 != ti);
                    assert(s[a2].id != s[ti].id);
                } else {
                    assert(d2[b2] == d[b2 - 1]);
                    assert(s[a2].id != d[b2 - 1].id);
                }
            }
        } else {
            assert(disjoint_ids(pre.spec_tasks(k2), pre.spec_deleted(k2)));
        }
    }
    assert forall|k2: Seq<char>| ids_below(#[trigger] post.spec_tasks(k2), b) by {
        if k2 == k {
            assert forall|a: int| 0 <= a < s2.len() implies (#[trigger] s2[a]).id < b by {
                let a2: int = if a < ti { a } else { a + 1 };
                assert(s2[a] == s[a2]);
                assert(s[a2].id < b);
            }
        } else {
            assert(ids_below(pre.spec_tasks(k2), b));
        }
    }
    assert forall|k2: Seq<char>| ids_below(#[trigger] post.spec_deleted(k2), b) by {
        if k2 == k {
            assert forall|a: int| 0 <= a < d2.len() implies (#[trigger] d2[a]).id < b by {
                if a == 0 {
                    assert(d2[a] == tv);
                    assert(tv.id < b);
                } else {
                    assert(d2[a] == d[a - 1]);
                    assert(d[a - 1].id < b);
                }
            }
        } else {
            assert(ids_below(pre.spec_deleted(k2), b));
        }
    }
    assert forall|k2: Seq<char>| (#[trigger] post.spec_deleted(k2)).len() <= 3 by {
        if k2 != k {
            assert(pre.spec_deleted(k2).len() <= 3);
        }
    }
}

/// After popping the newest queued deletion of one context and appending
/// it back to that context's live list, the invariant still holds.
proof fn lemma_undo_wf(pre: LocalTaskStorage, post: &LocalTaskStorage, k: Seq<char>)
    requires
        pre.wf(),
        post.next_id == pre.next_id,
        pre.spec_deleted(k).len() > 0,
        post.spec_tasks(k) == pre.spec_tasks(k).push(pre.spec_deleted(k)[0]),
        post.spec_deleted(k) == pre.spec_deleted(k).drop_first(),
        forall|k2: Seq<char>| k2 != k ==> (#[trigger] post.spec_tasks(k2)) == pre.spec_tasks(k2),
        forall|k2: Seq<char>|
            k2 != k ==> (#[trigger] post.spec_deleted(k2)) == pre.spec_deleted(k2),
    ensures
        post.wf(),
{
    let s = pre.spec_tasks(k);
    let d = pre.spec_deleted(k);
    let s2 = post.spec_tasks(k);
    let d2 = post.spec_deleted(k);
    let tv = d[0];
    let b = post.next_id as nat;
    assert(unique_ids(s) && unique_ids(d) && disjoint_ids(s, d));
    assert(ids_below(s, b) && ids_below(d, b) && d.len() <= 3);
    assert(s2.len() == s.len() + 1);
    assert forall|j: int| 0 <= j < d2.len() implies d2[j] == d[j + 1] by {}
    assert forall|k2: Seq<char>| unique_ids(#[trigger] post.spec_tasks(k2)) by {
        if k2 == k {
            assert forall|a: int, b2: int|
                0 <= a < b2 < s2.len() implies (#[trigger] s2[a]).id != (#[trigger] s2[b2]).id by {
                assert(s2[a] == s[a]);
                if b2 == s.len() {
                    assert(s2[b2] == tv);
                    assert(s[a].id != tv.id);
                } else {
                    assert(s2[b2] == s[b2]);
                }
            }
        } else {
            assert(unique_ids(pre.spec_tasks(k2)));
        }
    }
    assert forall|k2: Seq<char>| unique_ids(#[trigger] post.spec_deleted(k2)) by {
        if k2 == k {
            assert forall|a: int, b2: int|
                0 <= a < b2 < d2.len() implies (#[trigger] d2[a]).id != (#[trigger] d2[b2]).id by {
                assert(d2[a] == d[a + 1]);
                assert(d2[b2] == d[b2 + 1]);
                assert(d[a + 1].id != d[b2 + 1].id);
            }
        } else {
            assert(unique_ids(pre.spec_deleted(k2)));
        }
    }
    assert forall|k2: Seq<char>|
        disjoint_ids(post.spec_tasks(k2), #[trigger] post.spec_deleted(k2)) by {
        if k2 == k {
            assert forall|a: int, b2: int|
                0 <= a < s2.len() && 0 <= b2 < d2.len() implies (#[trigger] s2[a]).id != (
            #[trigger] d2[b2]).id by {
                assert(d2[b2] == d[b2 + 1]);
                if a == s.len() {
                    assert(s2[a] == tv);
                    assert(d[0].id != d[b2 + 1].id);
                } else {
                    assert(s2[a] == s[a]);
                    assert(s[a].id != d[b2 + 1].id);
                }
            }
        } else {
            assert(disjoint_ids(pre.spec_tasks(k2), pre.spec_deleted(k2)));
        }
    }
    assert forall|k2: Seq<char>| ids_below(#[trigger] post.spec_tasks(k2), b) by {
        if k2 == k {
            assert forall|a: int| 0 <= a < s2.len() implies (#[trigger] s2[a]).id < b by {
                if a == s.len() {
                    assert(s2[a] == tv);
                    assert(tv.id < b);
                } else {
                    assert(s2[a] == s[a]);
                    assert(s[a].id < b);
                }
            }
        } else {
            assert(ids_below(pre.spec_tasks(k2), b));
        }
    }
    assert forall|k2: Seq<char>| ids_below(#[trigger] post.spec_deleted(k2), b) by {
        if k2 == k {
            assert forall|a: int| 0 <= a < d2.len() implies (#[trigger] d2[a]).id < b by {
                assert(d2[a] == d[a + 1]);
                assert(d[a + 1].id < b);
            }
        } else {
            assert(ids_below(pre.spec_deleted(k2), b));
        }
    }
    assert forall|k2: Seq<char>| (#[trigger] post.spec_deleted(k2)).len() <= 3 by {
        if k2 != k {
            assert(pre.spec_deleted(k2).len() <= 3);
        }
    }
}

/// After rewriting, in place, the payload of the task at one position of
/// one context (its id untouched), the store's invariant still holds and
/// every other context is untouched. The lemma recovers the post state's
/// shape from the remove-then-insert edits the operations perform.
proof fn lemma_payload_update(
    pre: LocalTaskStorage,
    post: &LocalTaskStorage,
    k: Seq<char>,
    entries0: Seq<ContextEntry<Task>>,
    ci: int,
    ti: int,
    items0: Seq<Task>,
)
    requires
        pre.wf(),
        entries0 == pre.contexts@,
        ci == key_index(entries0, k),
        0 <= ci < entries0.len(),
        entries0[ci].key@ == k,
        items0 == entries0[ci].items@,
        0 <= ti < items0.len(),
        post.next_id == pre.next_id,
        post.deleted_tasks == pre.deleted_tasks,
        post.contexts@ == entries0.remove(ci).insert(ci, post.contexts@[ci]),
        post.contexts@[ci].key == entries0[ci].key,
        post.contexts@[ci].items@ == items0.remove(ti).insert(ti, post.contexts@[ci].items@[ti]),
        post.contexts@[ci].items@[ti]@.id == items0[ti]@.id,
    ensures
        post.wf(),
        post.spec_tasks(k) == pre.spec_tasks(k).update(ti, post.contexts@[ci].items@[ti]@),
        forall|k2: Seq<char>| k2 != k ==> (#[trigger] post.spec_tasks(k2)) == pre.spec_tasks(k2),
        forall|k2: Seq<char>| (#[trigger] post.spec_deleted(k2)) == pre.spec_deleted(k2),
{
    let e = post.contexts@[ci];
    let tv = e.items@[ti]@;
    lemma_context_lookup(entries0, k);
    assert(post.contexts@ =~= entries0.update(ci, e));
    assert(e.items@ =~= items0.update(ti, e.items@[ti]));
    let dv0 = entries0[ci].items.deep_view();
    assert(dv0.len() == items0.len());
    assert(e.items.deep_view().len() == e.items@.len());
    assert forall|j: int| 0 <= j < e.items@.len() implies e.items.deep_view()[j] == dv0.update(
        ti,
        tv,
    )[j] by {
        if j != ti {
            assert(e.items@[j] == items0[j]);
        }
    }
    assert(e.items.deep_view() =~= dv0.update(ti, tv));
    lemma_context_update(entries0, ci, e);
    assert(post.spec_tasks(k) == pre.spec_tasks(k).update(ti, tv));
    assert forall|k2: Seq<char>|
        k2 != k implies (#[trigger] post.spec_tasks(k2)) == pre.spec_tasks(k2) by {
        assert(items_at(entries0.update(ci, e), k2) == items_at(entries0, k2));
    }
    let s = pre.spec_tasks(k);
    let s2 = post.spec_tasks(k);
    assert forall|k2: Seq<char>| unique_ids(#[trigger] post.spec_tasks(k2)) by {
        if k2 == k {
            assert(unique_ids(s));
            assert forall|a: int, b: int|
                0 <= a < b < s2.len() implies (#[trigger] s2[a]).id != (#[trigger] s2[b]).id by {
                assert(s2[a].id == s[a].id);
                assert(s2[b].id == s[b].id);
            }
        } else {
            assert(unique_ids(pre.spec_tasks(k2)));
        }
    }
    assert forall|k2: Seq<char>| unique_ids(#[trigger] post.spec_deleted(k2)) by {
        assert(unique_ids(pre.spec_deleted(k2)));
    }
    assert forall|k2: Seq<char>|
        disjoint_ids(post.spec_tasks(k2), #[trigger] post.spec_deleted(k2)) by {
        assert(disjoint_ids(pre.spec_tasks(k2), pre.spec_deleted(k2)));
        if k2 == k {
            let d = pre.spec_deleted(k2);
            assert forall|a: int, b: int|
                0 <= a < s2.len() && 0 <= b < d.len() implies (#[trigger] s2[a]).id != (
            #[trigger] d[b]).id by {
                assert(s2[a].id == s[a].id);
            }
        }
    }
    assert forall|k2: Seq<char>| ids_below(#[trigger] post.spec_tasks(k2), post.next_id as nat) by {
        assert(ids_below(pre.spec_tasks(k2), pre.next_id as nat));
        if k2 == k {
            assert forall|a: int|
                0 <= a < s2.len() implies (#[trigger] s2[a]).id < post.next_id as nat by {
                assert(s2[a].id == s[a].id);
            }
        }
    }
    assert forall|k2: Seq<char>|
        ids_below(#[trigger] post.spec_deleted(k2), post.next_id as nat) by {
        assert(ids_below(pre.spec_deleted(k2), pre.next_id as nat));
    }
    assert forall|k2: Seq<char>| (#[trigger] post.spec_deleted(k2)).len() <= 3 by {
        assert(pre.spec_deleted(k2).len() <= 3);
    }
}

/// After appending one fresh task (id equal to the old counter) under one
/// key and stepping the counter, the invariant still holds.
proof fn lemma_add_wf(pre: LocalTaskStorage, post: LocalTaskStorage, k: Seq<char>, tv: TaskView)
    requires
        pre.wf(),
        pre.next_id < usize::MAX,
        tv.id == pre.next_id as nat,
        post.next_id == pre.next_id + 1,
        post.spec_tasks(k) == pre.spec_tasks(k).push(tv),
        forall|k2: Seq<char>|
            k2 != k ==> (#[trigger] post.spec_tasks(k2)) == pre.spec_tasks(k2),
        forall|k2: Seq<char>| (#[trigger] post.spec_deleted(k2)) == pre.spec_deleted(k2),
    ensures
        post.wf(),
{
    let b = post.next_id as nat;
    assert forall|k2: Seq<char>| unique_ids(#[trigger] post.spec_tasks(k2)) by {
        if k2 == k {
            let s = pre.spec_tasks(k);
            let s2 = post.spec_tasks(k);
            assert forall|i: int, j: int|
                0 <= i < j < s2.len() implies (#[trigger] s2[i]).id != (#[trigger] s2[j]).id by {
                if j < s.len() {
                    assert(unique_ids(s));
                } else {
                    assert(s2[j] == tv);
                    assert(ids_below(s, pre.next_id as nat));
                    assert(s2[i] == s[i]);
                }
            }
        } else {
            assert(unique_ids(pre.spec_tasks(k2)));
        }
    }
    assert forall|k2: Seq<char>| unique_ids(#[trigger] post.spec_deleted(k2)) by {
        assert(unique_ids(pre.spec_deleted(k2)));
    }
    assert forall|k2: Seq<char>|
        disjoint_ids(post.spec_tasks(k2), #[trigger] post.spec_deleted(k2)) by {
        let d = pre.spec_deleted(k2);
        assert(disjoint_ids(pre.spec_tasks(k2), d));
        assert(ids_below(d, pre.next_id as nat));
        if k2 == k {
            let s = pre.spec_tasks(k);
            let s2 = post.spec_tasks(k);
            assert forall|i: int, j: int|
                0 <= i < s2.len() && 0 <= j < d.len() implies (#[trigger] s2[i]).id != (
            #[trigger] d[j]).id by {
                if i < s.len() {
                    assert(s2[i] == s[i]);
                } else {
                    assert(s2[i] == tv);
                    assert(d[j].id < pre.next_id as nat);
                }
            }
        }
    }
    assert forall|k2: Seq<char>| ids_below(#[trigger] post.spec_tasks(k2), b) by {
        let s = pre.spec_tasks(k2);
        assert(ids_below(s, pre.next_id as nat));
        if k2 == k {
            let s2 = post.spec_tasks(k);
            assert forall|i: int| 0 <= i < s2.len() implies (#[trigger] s2[i]).id < b by {
                if i < s.len() {
                    assert(s2[i] == s[i]);
                    assert(s[i].id < pre.next_id as nat);
                } else {
                    assert(s2[i] == tv);
                }
            }
        } else {
            assert forall|i: int| 0 <= i < s.len() implies (#[trigger] s[i]).id < b by {
                assert(s[i].id < pre.next_id as nat);
            }
        }
    }
    assert forall|k2: Seq<char>| ids_below(#[trigger] post.spec_deleted(k2), b) by {
        let d = pre.spec_deleted(k2);
        assert(ids_below(d, pre.next_id as nat));
        assert forall|i: int| 0 <= i < d.len() implies (#[trigger] d[i]).id < b by {
            assert(d[i].id < pre.next_id as nat);
        }
    }
    assert forall|k2: Seq<char>| (#[trigger] post.spec_deleted(k2)).len() <= 3 by {
        assert(pre.spec_deleted(k2).len() <= 3);
    }
}

} // verus!
