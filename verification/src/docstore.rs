//! The document-store backend.
//!
//! The remote store keeps one document per task in an unordered
//! collection, a counter document incremented atomically on the server,
//! and a collection of recently deleted tasks. Its presentation order is
//! id order, imposed by a client-side sort on every read, and it reorders
//! tasks by exchanging the two documents' stored ids rather than any
//! position.
//!
//! This module holds that backend's whole behaviour, verified:
//! [`DocumentStore`], the backend's document-level state and operations,
//! which implements the shared [`TaskStorage`] capability set with the
//! document model's semantics; and the two pieces of computation the
//! remote client needs between its reads and writes, the id sort and the
//! id-exchange planning.

use vstd::prelude::*;

use crate::ctx::{
    find_key, items_at, key_index, lemma_context_lookup, lemma_context_push,
    lemma_context_update, ContextEntry,
};
use crate::model::{
    disjoint_ids, ids_below, index_of_id, lemma_index_of_id_char, park, unique_ids, with_status,
    with_text,
};
use crate::store::TaskStorage;
use crate::task::{next_status, spec_next_status, Task, TaskStatus, TaskView};

verus! {

/// The sequence is ordered by task id, ascending.
pub open spec fn sorted_by_id(s: Seq<TaskView>) -> bool {
    forall|i: int, j: int| 0 <= i < j < s.len() ==> (#[trigger] s[i]).id <= (#[trigger] s[j]).id
}

/// First position whose task id exceeds `id`, in an id-sorted list.
fn lower_bound(r: &Vec<Task>, id: usize) -> (pos: usize)
    requires
        sorted_by_id(r.deep_view()),
    ensures
        pos <= r@.len(),
        forall|j: int| 0 <= j < pos ==> (#[trigger] r.deep_view()[j]).id <= id as nat,
        forall|j: int| pos <= j < r@.len() ==> (#[trigger] r.deep_view()[j]).id > id as nat,
{
    let n = r.len();
    let mut pos: usize = 0;
    proof {
        assert(r.deep_view().len() == r@.len());
    }
    while pos < n && r[pos].id <= id
        invariant
            n == r@.len(),
            r.deep_view().len() == r@.len(),
            sorted_by_id(r.deep_view()),
            0 <= pos <= n,
            forall|j: int| 0 <= j < pos ==> (#[trigger] r.deep_view()[j]).id <= id as nat,
        decreases n - pos,
    {
        proof {
            assert(r.deep_view()[pos as int].id <= id as nat);
        }
        pos += 1;
    }
    proof {
        assert forall|j: int|
            pos <= j < r@.len() implies (#[trigger] r.deep_view()[j]).id > id as nat by {
            if j == pos {
                assert(r.deep_view()[pos as int] == r@[pos as int]@);
            } else {
                assert(r.deep_view()[pos as int].id <= r.deep_view()[j].id);
                assert(r.deep_view()[pos as int] == r@[pos as int]@);
            }
        }
    }
    pos
}

/// Orders the fetched tasks by id, ascending: the document model keeps no
/// order of its own, so this sort is what gives the backend's `get_tasks`
/// its presentation order. The result holds exactly the given tasks.
pub fn sort_tasks_by_id(tasks: Vec<Task>) -> (r: Vec<Task>)
    ensures
        sorted_by_id(r.deep_view()),
        r.deep_view().to_multiset() == tasks.deep_view().to_multiset(),
        r@.len() == tasks@.len(),
{
    broadcast use vstd::seq_lib::group_to_multiset_ensures;

    let ghost m0 = tasks.deep_view().to_multiset();
    let ghost n0 = tasks@.len();
    let mut rest = tasks;
    let mut r: Vec<Task> = Vec::new();
    proof {
        assert(r.deep_view() =~= Seq::<TaskView>::empty());
        assert(r.deep_view().to_multiset().add(rest.deep_view().to_multiset()) =~= m0);
    }
    while rest.len() > 0
        invariant
            sorted_by_id(r.deep_view()),
            r.deep_view().to_multiset().add(rest.deep_view().to_multiset()) == m0,
            r@.len() + rest@.len() == n0,
        decreases rest.len(),
    {
        broadcast use vstd::seq_lib::group_to_multiset_ensures;

        let ghost restdv0 = rest.deep_view();
        let ghost rdv0 = r.deep_view();
        proof {
            assert(restdv0.len() == rest@.len());
            assert(rdv0.len() == r@.len());
        }
        let t = rest.remove(0);
        let ghost tv = t@;
        proof {
            assert(tv == restdv0[0]);
            assert(rest.deep_view().len() == rest@.len());
            assert forall|j: int|
                0 <= j < rest@.len() implies rest.deep_view()[j] == restdv0.drop_first()[j] by {
                assert(rest@[j]@ == restdv0[j + 1]);
            }
            assert(rest.deep_view() =~= restdv0.drop_first());
            assert(restdv0.drop_first() =~= restdv0.remove(0));
            assert(rest.deep_view().to_multiset() == restdv0.to_multiset().remove(tv));
            assert(restdv0.to_multiset().contains(tv));
        }
        let pos = lower_bound(&r, t.id);
        r.insert(pos, t);
        proof {
            assert(r.deep_view().len() == r@.len());
            assert forall|j: int|
                0 <= j < r@.len() implies r.deep_view()[j] == rdv0.insert(pos as int, tv)[j] by {
                if j < pos {
                    assert(r@[j]@ == rdv0[j]);
                } else if j == pos {
                    assert(r@[j]@ == tv);
                } else {
                    assert(r@[j]@ == rdv0[j - 1]);
                }
            }
            assert(r.deep_view() =~= rdv0.insert(pos as int, tv));
            assert(r.deep_view().to_multiset() == rdv0.to_multiset().insert(tv));
            let s2 = r.deep_view();
            assert forall|a: int, b: int|
                0 <= a < b < s2.len() implies (#[trigger] s2[a]).id <= (#[trigger] s2[b]).id by {
                if a < pos {
                    assert(s2[a] == rdv0[a]);
                } else if a == pos {
                    assert(s2[a] == tv);
                } else {
                    assert(s2[a] == rdv0[a - 1]);
                }
                if b < pos {
                    assert(s2[b] == rdv0[b]);
                } else if b == pos {
                    assert(s2[b] == tv);
                } else {
                    assert(s2[b] == rdv0[b - 1]);
                }
            }
            assert(r.deep_view().to_multiset().add(rest.deep_view().to_multiset()) =~= rdv0
                .to_multiset()
                .add(restdv0.to_multiset()));
        }
    }
    proof {
        assert(rest.deep_view().len() == rest@.len());
        assert(rest.deep_view() =~= Seq::<TaskView>::empty());
        assert(r.deep_view().to_multiset().add(rest.deep_view().to_multiset()) =~= r.deep_view()
            .to_multiset());
    }
    r
}

/// Position a task with the given id takes in an id-sorted sequence: the
/// index of the first task whose id exceeds it.
pub open spec fn sorted_insert_pos(s: Seq<TaskView>, id: nat) -> int
    decreases s.len(),
{
    if s.len() == 0 {
        0
    } else if s[0].id > id {
        0
    } else {
        1 + sorted_insert_pos(s.drop_first(), id)
    }
}

/// `sorted_insert_pos` splits the sequence into ids at most `id` and,
/// from that position on, ids above it — provided the sequence is sorted.
pub proof fn lemma_sorted_insert_pos(s: Seq<TaskView>, id: nat)
    requires
        sorted_by_id(s),
    ensures
        0 <= sorted_insert_pos(s, id) <= s.len(),
        forall|j: int| 0 <= j < sorted_insert_pos(s, id) ==> (#[trigger] s[j]).id <= id,
        forall|j: int| sorted_insert_pos(s, id) <= j < s.len() ==> (#[trigger] s[j]).id > id,
    decreases s.len(),
{
    if s.len() == 0 {
    } else if s[0].id > id {
        assert forall|j: int| 0 <= j < s.len() implies (#[trigger] s[j]).id > id by {
            if j > 0 {
                assert(s[0].id <= s[j].id);
            }
        }
    } else {
        let df = s.drop_first();
        assert forall|a: int, b: int|
            0 <= a < b < df.len() implies (#[trigger] df[a]).id <= (#[trigger] df[b]).id by {
            assert(df[a] == s[a + 1]);
            assert(df[b] == s[b + 1]);
            assert(s[a + 1].id <= s[b + 1].id);
        }
        lemma_sorted_insert_pos(df, id);
        let p = sorted_insert_pos(df, id);
        assert forall|j: int| 0 <= j < p + 1 implies (#[trigger] s[j]).id <= id by {
            if j > 0 {
                assert(df[j - 1] == s[j]);
                assert(df[j - 1].id <= id);
            }
        }
        assert forall|j: int| p + 1 <= j < s.len() implies (#[trigger] s[j]).id > id by {
            assert(df[j - 1] == s[j]);
            assert(df[j - 1].id > id);
        }
    }
}

/// Two adjacent tasks of an id-sorted sequence after the backend's id
/// exchange: each id stays at its position, the two payloads trade
/// places. A caller holding either old id afterwards addresses the other
/// task — the divergence from the local backend's positional swap.
pub open spec fn exchange_ids_adjacent(s: Seq<TaskView>, i: int) -> Seq<TaskView> {
    s.update(i - 1, TaskView { id: s[i - 1].id, ..s[i] }).update(
        i,
        TaskView { id: s[i].id, ..s[i - 1] },
    )
}

/// Plans the backend's "move up": given the context's id-sorted tasks and
/// a task id, names the pair of task-id values to exchange between the
/// target's document and its predecessor's, or nothing when the id is
/// absent or already first.
///
/// Exchanging the stored ids — rather than any position — is how this
/// backend reorders. It diverges from the local backend's moves: there
/// the records swap places and every id stays attached to its task, here
/// the two records trade ids, so a caller holding either old id will
/// afterwards address the other task.
pub fn plan_id_swap_up(tasks: &Vec<Task>, id: usize) -> (r: Option<(usize, usize)>)
    ensures
        ({
            let s = tasks.deep_view();
            let i = index_of_id(s, id as nat);
            match r {
                Some(p) => i > 0 && p.0 as nat == s[i].id && p.1 as nat == s[i - 1].id
                    && p.0 == id,
                None => i <= 0,
            }
        }),
{
    proof {
        assert(tasks.deep_view().len() == tasks@.len());
        crate::model::lemma_index_of_id_char(tasks.deep_view(), id as nat);
    }
    match crate::local::find_task_index(tasks, id) {
        Some(i) => {
            if i == 0 {
                None
            } else {
                Some((tasks[i].id, tasks[i - 1].id))
            }
        },
        None => None,
    }
}

/// Plans the backend's "move down": the pair of task-id values to
/// exchange between the target's document and its successor's, or nothing
/// when the id is absent or already last. The same id-exchange divergence
/// as for `plan_id_swap_up` applies.
pub fn plan_id_swap_down(tasks: &Vec<Task>, id: usize) -> (r: Option<(usize, usize)>)
    ensures
        ({
            let s = tasks.deep_view();
            let i = index_of_id(s, id as nat);
            match r {
                Some(p) => 0 <= i && i + 1 < s.len() && p.0 as nat == s[i].id && p.1 as nat == s[i
                    + 1].id && p.0 == id,
                None => i < 0 || i + 1 >= s.len(),
            }
        }),
{
    proof {
        assert(tasks.deep_view().len() == tasks@.len());
        crate::model::lemma_index_of_id_char(tasks.deep_view(), id as nat);
    }
    match crate::local::find_task_index(tasks, id) {
        Some(i) => {
            let n = tasks.len();
            if i + 1 >= n {
                None
            } else {
                Some((tasks[i].id, tasks[i + 1].id))
            }
        },
        None => None,
    }
}

/// Document-level state of the document-store backend: the live task
/// documents grouped by context key and kept in id order (the order every
/// read presents), the value of the shared counter document (the last id
/// it handed out), and the recently deleted documents of each context,
/// newest deletion first.
#[derive(Debug)]
pub struct DocumentStore {
    pub tasks: Vec<ContextEntry<Task>>,
    pub counter: usize,
    pub deleted_tasks: Vec<ContextEntry<Task>>,
}

impl DocumentStore {
    /// The live tasks of a context, in the backend's id order.
    pub open spec fn spec_tasks(&self, k: Seq<char>) -> Seq<TaskView> {
        items_at(self.tasks@, k)
    }

    /// The recently deleted tasks of a context, newest first.
    pub open spec fn spec_deleted(&self, k: Seq<char>) -> Seq<TaskView> {
        items_at(self.deleted_tasks@, k)
    }

    /// The store's invariant: each context's live list is id-sorted, ids
    /// are unique within a context and never shared with its deletion
    /// queue, all ids have been handed out by the counter, and no
    /// deletion queue holds more than three tasks.
    pub open spec fn wf(&self) -> bool {
        &&& forall|k: Seq<char>| sorted_by_id(#[trigger] self.spec_tasks(k))
        &&& forall|k: Seq<char>| unique_ids(#[trigger] self.spec_tasks(k))
        &&& forall|k: Seq<char>| unique_ids(#[trigger] self.spec_deleted(k))
        &&& forall|k: Seq<char>| disjoint_ids(self.spec_tasks(k), #[trigger] self.spec_deleted(k))
        &&& forall|k: Seq<char>|
            ids_below(#[trigger] self.spec_tasks(k), self.counter as nat + 1)
        &&& forall|k: Seq<char>|
            ids_below(#[trigger] self.spec_deleted(k), self.counter as nat + 1)
        &&& forall|k: Seq<char>| (#[trigger] self.spec_deleted(k)).len() <= 3
    }

    /// A store over empty collections and an untouched counter.
    pub fn new() -> (r: Self)
        ensures
            r.wf(),
            r.counter == 0,
            forall|k: Seq<char>| (#[trigger] r.spec_tasks(k)) == Seq::<TaskView>::empty(),
            forall|k: Seq<char>| (#[trigger] r.spec_deleted(k)) == Seq::<TaskView>::empty(),
    {
        let r = DocumentStore { tasks: Vec::new(), counter: 0, deleted_tasks: Vec::new() };
        proof {
            assert(r.tasks@ =~= Seq::<ContextEntry<Task>>::empty());
            assert(r.deleted_tasks@ =~= Seq::<ContextEntry<Task>>::empty());
        }
        r
    }
}

impl TaskStorage for DocumentStore {
    open spec fn inv(&self) -> bool {
        self.wf()
    }

    open spec fn tasks(&self, k: Seq<char>) -> Seq<TaskView> {
        self.spec_tasks(k)
    }

    open spec fn deleted(&self, k: Seq<char>) -> Seq<TaskView> {
        self.spec_deleted(k)
    }

    open spec fn counter(&self) -> nat {
        self.counter as nat + 1
    }

    proof fn undo_bound(&self, k: Seq<char>) {
    }

    proof fn ids_bounded(&self, k: Seq<char>) {
    }

    fn get_tasks(&self, context_key: &str) -> (r: Vec<Task>) {
        let ck = context_key.to_owned();
        proof {
            lemma_context_lookup(self.tasks@, ck@);
        }
        match find_key(&self.tasks, &ck) {
            Some(ci) => crate::local::clone_tasks(&self.tasks[ci].items),
            None => {
                let r: Vec<Task> = Vec::new();
                proof {
                    assert(r.deep_view() =~= Seq::<TaskView>::empty());
                }
                r
            },
        }
    }

    fn add_task(&mut self, context_key: &str, text: String) -> (r: usize) {
        let ck = context_key.to_owned();
        let ghost k = ck@;
        let ghost entries0 = self.tasks@;
        let ghost s0 = self.spec_tasks(k);
        proof {
            lemma_context_lookup(entries0, k);
        }
        let id = self.counter + 1;
        let t = Task::new(id, text);
        let ghost tv = t@;
        match find_key(&self.tasks, &ck) {
            Some(ci) => {
                let mut entry = self.tasks.remove(ci);
                let ghost items0 = entry.items.deep_view();
                entry.items.push(t);
                proof {
                    assert(entry.items.deep_view() =~= items0.push(tv));
                }
                self.tasks.insert(ci, entry);
                proof {
                    let e = self.tasks@[ci as int];
                    assert(self.tasks@ =~= entries0.update(ci as int, e));
                    lemma_context_update(entries0, ci as int, e);
                    assert(self.spec_tasks(k) == s0.push(tv));
                    assert forall|k2: Seq<char>|
                        k2 != k implies #[trigger] self.spec_tasks(k2) == items_at(
                        entries0,
                        k2,
                    ) by {
                        assert(items_at(entries0.update(ci as int, e), k2) == items_at(
                            entries0,
                            k2,
                        ));
                    }
                }
            },
            None => {
                let mut items: Vec<Task> = Vec::new();
                items.push(t);
                let e = ContextEntry { key: ck, items };
                proof {
                    assert(e.items.deep_view() =~= Seq::<TaskView>::empty().push(tv));
                }
                self.tasks.push(e);
                proof {
                    let e2 = self.tasks@.last();
                    assert(e2.key@ == k);
                    lemma_context_push(entries0, e2);
                    assert(self.tasks@ == entries0.push(e2));
                    assert(s0 =~= Seq::<TaskView>::empty());
                    assert(self.spec_tasks(k) == s0.push(tv));
                    assert forall|k2: Seq<char>|
                        k2 != k implies #[trigger] self.spec_tasks(k2) == items_at(
                        entries0,
                        k2,
                    ) by {
                        assert(key_index(entries0.push(e2), k2) == key_index(entries0, k2));
                        assert(items_at(entries0.push(e2), k2) == items_at(entries0, k2));
                    }
                }
            },
        }
        self.counter = id;
        proof {
            lemma_doc_add_wf(*old(self), self, k, tv);
            assert(self.spec_tasks(k).take(s0.len() as int) =~= s0);
        }
        id
    }

    fn toggle_task(&mut self, context_key: &str, id: usize) -> (r: bool) {
        let ck = context_key.to_owned();
        let ghost k = ck@;
        let ghost entries0 = self.tasks@;
        proof {
            lemma_context_lookup(entries0, k);
        }
        let ci = match find_key(&self.tasks, &ck) {
            Some(ci) => ci,
            None => {
                return false;
            },
        };
        let ti = match crate::local::find_task_index(&self.tasks[ci].items, id) {
            Some(ti) => ti,
            None => {
                return false;
            },
        };
        proof {
            assert(entries0[ci as int].items.deep_view().len() == entries0[ci as int].items@.len());
            lemma_index_of_id_char(entries0[ci as int].items.deep_view(), id as nat);
        }
        let mut entry = self.tasks.remove(ci);
        let ghost items0 = entry.items@;
        let mut t = entry.items.remove(ti);
        let ghost tv0 = t@;
        let ns = next_status(t.status);
        t.status = ns;
        proof {
            assert(t@ == with_status(tv0, spec_next_status(tv0.status)));
        }
        entry.items.insert(ti, t);
        self.tasks.insert(ci, entry);
        proof {
            lemma_doc_update(*old(self), self, k, entries0, ci as int, ti as int, items0);
        }
        true
    }

    fn set_task_status(&mut self, context_key: &str, id: usize, status: TaskStatus) -> (r: bool) {
        let ck = context_key.to_owned();
        let ghost k = ck@;
        let ghost entries0 = self.tasks@;
        proof {
            lemma_context_lookup(entries0, k);
        }
        let ci = match find_key(&self.tasks, &ck) {
            Some(ci) => ci,
            None => {
                return false;
            },
        };
        let ti = match crate::local::find_task_index(&self.tasks[ci].items, id) {
            Some(ti) => ti,
            None => {
                return false;
            },
        };
        proof {
            assert(entries0[ci as int].items.deep_view().len() == entries0[ci as int].items@.len());
            lemma_index_of_id_char(entries0[ci as int].items.deep_view(), id as nat);
        }
        let mut entry = self.tasks.remove(ci);
        let ghost items0 = entry.items@;
        let mut t = entry.items.remove(ti);
        let ghost tv0 = t@;
        t.status = status;
        proof {
            assert(t@ == with_status(tv0, status));
        }
        entry.items.insert(ti, t);
        self.tasks.insert(ci, entry);
        proof {
            lemma_doc_update(*old(self), self, k, entries0, ci as int, ti as int, items0);
        }
        true
    }

    fn edit_task(&mut self, context_key: &str, id: usize, new_text: String) -> (r: bool) {
        let ck = context_key.to_owned();
        let ghost k = ck@;
        let ghost entries0 = self.tasks@;
        proof {
            lemma_context_lookup(entries0, k);
        }
        let ci = match find_key(&self.tasks, &ck) {
            Some(ci) => ci,
            None => {
                return false;
            },
        };
        let ti = match crate::local::find_task_index(&self.tasks[ci].items, id) {
            Some(ti) => ti,
            None => {
                return false;
            },
        };
        proof {
            assert(entries0[ci as int].items.deep_view().len() == entries0[ci as int].items@.len());
            lemma_index_of_id_char(entries0[ci as int].items.deep_view(), id as nat);
        }
        let mut entry = self.tasks.remove(ci);
        let ghost items0 = entry.items@;
        let mut t = entry.items.remove(ti);
        let ghost tv0 = t@;
        let ghost new_text_view = new_text@;
        t.text = new_text;
        proof {
            assert(t@ == with_text(tv0, new_text_view));
        }
        entry.items.insert(ti, t);
        self.tasks.insert(ci, entry);
        proof {
            lemma_doc_update(*old(self), self, k, entries0, ci as int, ti as int, items0);
        }
        true
    }

    fn remove_task(&mut self, context_key: &str, id: usize) -> (r: bool) {
        let ck = context_key.to_owned();
        let ghost k = ck@;
        let ghost entries0 = self.tasks@;
        let ghost s0 = self.spec_tasks(k);
        let ghost d0 = self.spec_deleted(k);
        proof {
            lemma_context_lookup(entries0, k);
        }
        let ci = match find_key(&self.tasks, &ck) {
            Some(ci) => ci,
            None => {
                return false;
            },
        };
        let ti = match crate::local::find_task_index(&self.tasks[ci].items, id) {
            Some(ti) => ti,
            None => {
                return false;
            },
        };
        proof {
            assert(entries0[ci as int].items.deep_view().len() == entries0[ci as int].items@.len());
            lemma_index_of_id_char(entries0[ci as int].items.deep_view(), id as nat);
        }
        let mut entry = self.tasks.remove(ci);
        let ghost items0 = entry.items@;
        let t = entry.items.remove(ti);
        let ghost tv = t@;
        self.tasks.insert(ci, entry);
        proof {
            let e = self.tasks@[ci as int];
            assert(self.tasks@ =~= entries0.update(ci as int, e));
            let dv0 = entries0[ci as int].items.deep_view();
            assert(e.items@ == items0.remove(ti as int));
            assert(e.items.deep_view().len() == e.items@.len());
            assert forall|j: int|
                0 <= j < e.items@.len() implies e.items.deep_view()[j] == dv0.remove(
                ti as int,
            )[j] by {
                if j < ti {
                    assert(e.items@[j] == items0[j]);
                } else {
                    assert(e.items@[j] == items0[j + 1]);
                }
            }
            assert(e.items.deep_view() =~= dv0.remove(ti as int));
            lemma_context_update(entries0, ci as int, e);
            assert(self.spec_tasks(k) == s0.remove(ti as int));
            assert forall|k2: Seq<char>|
                k2 != k implies #[trigger] self.spec_tasks(k2) == items_at(entries0, k2) by {
                assert(items_at(entries0.update(ci as int, e), k2) == items_at(entries0, k2));
            }
            assert(tv == s0[ti as int]);
        }
        let ghost dentries0 = self.deleted_tasks@;
        proof {
            lemma_context_lookup(dentries0, k);
        }
        match find_key(&self.deleted_tasks, &ck) {
            Some(di) => {
                let mut dentry = self.deleted_tasks.remove(di);
                let ghost ditems0 = dentry.items@;
                dentry.items.insert(0, t);
                if dentry.items.len() > 3 {
                    dentry.items.truncate(3);
                }
                self.deleted_tasks.insert(di, dentry);
                proof {
                    let de = self.deleted_tasks@[di as int];
                    assert(self.deleted_tasks@ =~= dentries0.update(di as int, de));
                    let ddv0 = dentries0[di as int].items.deep_view();
                    assert(ddv0.len() == ditems0.len());
                    assert(de.items.deep_view().len() == de.items@.len());
                    assert forall|j: int|
                        0 <= j < de.items@.len() implies de.items.deep_view()[j] == park(
                        ddv0,
                        tv,
                    )[j] by {
                        if j > 0 {
                            assert(de.items@[j] == ditems0[j - 1]);
                        }
                    }
                    assert(de.items.deep_view() =~= park(ddv0, tv));
                    lemma_context_update(dentries0, di as int, de);
                    assert(self.spec_deleted(k) == park(d0, tv));
                    assert forall|k2: Seq<char>|
                        k2 != k implies #[trigger] self.spec_deleted(k2) == items_at(
                        dentries0,
                        k2,
                    ) by {
                        assert(items_at(dentries0.update(di as int, de), k2) == items_at(
                            dentries0,
                            k2,
                        ));
                    }
                }
            },
            None => {
                let mut items: Vec<Task> = Vec::new();
                items.push(t);
                let de = ContextEntry { key: ck, items };
                proof {
                    assert(de.items.deep_view() =~= Seq::<TaskView>::empty().push(tv));
                }
                self.deleted_tasks.push(de);
                proof {
                    let de2 = self.deleted_tasks@.last();
                    assert(de2.key@ == k);
                    lemma_context_push(dentries0, de2);
                    assert(d0 =~= Seq::<TaskView>::empty());
                    assert(self.spec_deleted(k) =~= park(d0, tv));
                    assert forall|k2: Seq<char>|
                        k2 != k implies #[trigger] self.spec_deleted(k2) == items_at(
                        dentries0,
                        k2,
                    ) by {
                        assert(key_index(dentries0.push(de2), k2) == key_index(dentries0, k2));
                        assert(items_at(dentries0.push(de2), k2) == items_at(dentries0, k2));
                    }
                }
            },
        }
        proof {
            lemma_doc_remove_wf(*old(self), self, k, ti as int);
        }
        true
    }

    fn undo_delete(&mut self, context_key: &str) -> (r: Option<Task>)
        ensures
            r matches Some(t) ==> final(self).tasks(context_key@) == old(self).tasks(
                context_key@,
            ).insert(sorted_insert_pos(old(self).tasks(context_key@), t@.id), t@),
    {
        let ck = context_key.to_owned();
        let ghost k = ck@;
        let ghost entries0 = self.tasks@;
        let ghost dentries0 = self.deleted_tasks@;
        let ghost s0 = self.spec_tasks(k);
        let ghost d0 = self.spec_deleted(k);
        proof {
            lemma_context_lookup(entries0, k);
            lemma_context_lookup(dentries0, k);
        }
        let di = match find_key(&self.deleted_tasks, &ck) {
            Some(di) => di,
            None => {
                return None;
            },
        };
        proof {
            assert(dentries0[di as int].items.deep_view().len() == dentries0[di as int].items@.len());
        }
        if self.deleted_tasks[di].items.len() == 0 {
            return None;
        }
        let mut dentry = self.deleted_tasks.remove(di);
        let ghost ditems0 = dentry.items@;
        let t = dentry.items.remove(0);
        let ghost tv = t@;
        self.deleted_tasks.insert(di, dentry);
        proof {
            let de = self.deleted_tasks@[di as int];
            assert(self.deleted_tasks@ =~= dentries0.update(di as int, de));
            let ddv0 = dentries0[di as int].items.deep_view();
            assert(de.items@ == ditems0.remove(0));
            assert(de.items.deep_view().len() == de.items@.len());
            assert forall|j: int|
                0 <= j < de.items@.len() implies de.items.deep_view()[j] == ddv0.drop_first()[j] by {
                assert(de.items@[j] == ditems0[j + 1]);
            }
            assert(de.items.deep_view() =~= ddv0.drop_first());
            lemma_context_update(dentries0, di as int, de);
            assert(self.spec_deleted(k) == d0.drop_first());
            assert forall|k2: Seq<char>|
                k2 != k implies #[trigger] self.spec_deleted(k2) == items_at(dentries0, k2) by {
                assert(items_at(dentries0.update(di as int, de), k2) == items_at(dentries0, k2));
            }
            assert(tv == d0[0]);
        }
        let restored = t.clone();
        match find_key(&self.tasks, &ck) {
            Some(ci) => {
                proof {
                    assert(entries0[ci as int].items.deep_view() == s0);
                    lemma_sorted_insert_pos(s0, tv.id);
                    assert(entries0[ci as int].items.deep_view().len() == entries0[
                        ci as int].items@.len());
                }
                let mut entry = self.tasks.remove(ci);
                let ghost citems0 = entry.items@;
                let pos = lower_bound(&entry.items, t.id);
                let ghost p = pos as int;
                proof {
                    lemma_sorted_insert_pos_unique(s0, tv.id, p);
                }
                entry.items.insert(pos, t);
                proof {
                    assert(entry.items@ == citems0.insert(p, entry.items@[p]));
                    assert(entry.items.deep_view().len() == entry.items@.len());
                    assert forall|j: int|
                        0 <= j < entry.items@.len() implies entry.items.deep_view()[j] == s0.insert(
                        p,
                        tv,
                    )[j] by {
                        if j < p {
                            assert(entry.items@[j] == citems0[j]);
                        } else if j == p {
                            assert(entry.items@[j]@ == tv);
                        } else {
                            assert(entry.items@[j] == citems0[j - 1]);
                        }
                    }
                    assert(entry.items.deep_view() =~= s0.insert(p, tv));
                }
                self.tasks.insert(ci, entry);
                proof {
                    let e = self.tasks@[ci as int];
                    assert(self.tasks@ =~= entries0.update(ci as int, e));
                    lemma_context_update(entries0, ci as int, e);
                    assert(self.spec_tasks(k) == s0.insert(p, tv));
                    assert forall|k2: Seq<char>|
                        k2 != k implies #[trigger] self.spec_tasks(k2) == items_at(
                        entries0,
                        k2,
                    ) by {
                        assert(items_at(entries0.update(ci as int, e), k2) == items_at(
                            entries0,
                            k2,
                        ));
                    }
                }
            },
            None => {
                let mut items: Vec<Task> = Vec::new();
                items.push(t);
                let e = ContextEntry { key: ck, items };
                proof {
                    assert(e.items.deep_view() =~= Seq::<TaskView>::empty().push(tv));
                }
                self.tasks.push(e);
                proof {
                    let e2 = self.tasks@.last();
                    assert(e2.key@ == k);
                    lemma_context_push(entries0, e2);
                    assert(s0 =~= Seq::<TaskView>::empty());
                    assert(self.spec_tasks(k) =~= s0.insert(0, tv));
                    assert(sorted_insert_pos(s0, tv.id) == 0);
                    assert forall|k2: Seq<char>|
                        k2 != k implies #[trigger] self.spec_tasks(k2) == items_at(
                        entries0,
                        k2,
                    ) by {
                        assert(key_index(entries0.push(e2), k2) == key_index(entries0, k2));
                        assert(items_at(entries0.push(e2), k2) == items_at(entries0, k2));
                    }
                }
            },
        }
        proof {
            lemma_doc_undo_wf(*old(self), self, k);
            broadcast use vstd::seq_lib::group_to_multiset_ensures;
            let p = sorted_insert_pos(s0, tv.id);
            assert(s0.insert(p, tv).to_multiset() =~= s0.to_multiset().insert(tv));
        }
        Some(restored)
    }

    fn move_task_up(&mut self, context_key: &str, id: usize) -> (r: bool)
        ensures
            r == (index_of_id(old(self).tasks(context_key@), id as nat) > 0),
            r ==> final(self).tasks(context_key@) == exchange_ids_adjacent(
                old(self).tasks(context_key@),
                index_of_id(old(self).tasks(context_key@), id as nat),
            ),
    {
        let ck = context_key.to_owned();
        let ghost k = ck@;
        let ghost entries0 = self.tasks@;
        let ghost s0 = self.spec_tasks(k);
        proof {
            lemma_context_lookup(entries0, k);
        }
        let ci = match find_key(&self.tasks, &ck) {
            Some(ci) => ci,
            None => {
                return false;
            },
        };
        let ti = match crate::local::find_task_index(&self.tasks[ci].items, id) {
            Some(ti) => ti,
            None => {
                return false;
            },
        };
        if ti == 0 {
            return false;
        }
        proof {
            assert(entries0[ci as int].items.deep_view().len() == entries0[ci as int].items@.len());
            lemma_index_of_id_char(entries0[ci as int].items.deep_view(), id as nat);
        }
        let mut entry = self.tasks.remove(ci);
        exchange_adjacent_ids(&mut entry.items, ti);
        self.tasks.insert(ci, entry);
        proof {
            lemma_doc_exchange(*old(self), self, k, entries0, ci as int, ti as int);
        }
        true
    }

    fn move_task_down(&mut self, context_key: &str, id: usize) -> (r: bool)
        ensures
            r == ({
                let s = old(self).tasks(context_key@);
                let i = index_of_id(s, id as nat);
                i >= 0 && i + 1 < s.len()
            }),
            r ==> final(self).tasks(context_key@) == exchange_ids_adjacent(
                old(self).tasks(context_key@),
                index_of_id(old(self).tasks(context_key@), id as nat) + 1,
            ),
    {
        let ck = context_key.to_owned();
        let ghost k = ck@;
        let ghost entries0 = self.tasks@;
        let ghost s0 = self.spec_tasks(k);
        proof {
            lemma_context_lookup(entries0, k);
        }
        let ci = match find_key(&self.tasks, &ck) {
            Some(ci) => ci,
            None => {
                return false;
            },
        };
        let ti = match crate::local::find_task_index(&self.tasks[ci].items, id) {
            Some(ti) => ti,
            None => {
                return false;
            },
        };
        proof {
            assert(entries0[ci as int].items.deep_view().len() == entries0[ci as int].items@.len());
            lemma_index_of_id_char(entries0[ci as int].items.deep_view(), id as nat);
            assert((ti as int) < entries0[ci as int].items@.len());
        }
        let n = self.tasks[ci].items.len();
        if ti + 1 >= n {
            return false;
        }
        let mut entry = self.tasks.remove(ci);
        exchange_adjacent_ids(&mut entry.items, ti + 1);
        self.tasks.insert(ci, entry);
        proof {
            lemma_doc_exchange(*old(self), self, k, entries0, ci as int, ti as int + 1);
        }
        true
    }
}

/// Exchanges the stored ids of the tasks at positions `i - 1` and `i`:
/// each position keeps its id, the two payloads trade places.
fn exchange_adjacent_ids(items: &mut Vec<Task>, i: usize)
    requires
        1 <= i < old(items)@.len(),
    ensures
        final(items).deep_view() == exchange_ids_adjacent(old(items).deep_view(), i as int),
        final(items)@.len() == old(items)@.len(),
{
    let ghost dv0 = items.deep_view();
    let ghost items0 = items@;
    proof {
        assert(dv0.len() == items0.len());
    }
    let a = items.remove(i - 1);
    let b = items.remove(i - 1);
    let na = Task { id: a.id, text: b.text.clone(), status: b.status, created_at: b.created_at.clone() };
    let nb = Task { id: b.id, text: a.text.clone(), status: a.status, created_at: a.created_at.clone() };
    items.insert(i - 1, nb);
    items.insert(i - 1, na);
    proof {
        assert(a == items0[i - 1]);
        assert(b == items0[i as int]);
        let s2 = exchange_ids_adjacent(dv0, i as int);
        assert(items@.len() == items0.len());
        assert(items.deep_view().len() == items@.len());
        assert forall|j: int| 0 <= j < items@.len() implies items.deep_view()[j] == s2[j] by {
            if j < i - 1 {
                assert(items@[j] == items0[j]);
            } else if j == i - 1 {
                assert(items@[j]@ == na@);
            } else if j == i {
                assert(items@[j]@ == nb@);
            } else {
                assert(items@[j] == items0[j]);
            }
        }
        assert(items.deep_view() =~= s2);
    }
}

/// `lower_bound` finds exactly `sorted_insert_pos`.
proof fn lemma_sorted_insert_pos_unique(s: Seq<TaskView>, id: nat, p: int)
    requires
        sorted_by_id(s),
        0 <= p <= s.len(),
        forall|j: int| 0 <= j < p ==> (#[trigger] s[j]).id <= id,
        forall|j: int| p <= j < s.len() ==> (#[trigger] s[j]).id > id,
    ensures
        p == sorted_insert_pos(s, id),
{
    lemma_sorted_insert_pos(s, id);
    let q = sorted_insert_pos(s, id);
    if q < p {
        assert(s[q].id <= id);
        assert(s[q].id > id);
    } else if q > p {
        assert(s[p].id <= id);
        assert(s[p].id > id);
    }
}

/// After appending one fresh task (the counter's next id) under one key
/// and stepping the counter, the invariant still holds.
proof fn lemma_doc_add_wf(pre: DocumentStore, post: &DocumentStore, k: Seq<char>, tv: TaskView)
    requires
        pre.wf(),
        pre.counter < usize::MAX - 1,
        tv.id == pre.counter as nat + 1,
        post.counter == pre.counter + 1,
        post.deleted_tasks == pre.deleted_tasks,
        post.spec_tasks(k) == pre.spec_tasks(k).push(tv),
        forall|k2: Seq<char>| k2 != k ==> (#[trigger] post.spec_tasks(k2)) == pre.spec_tasks(k2),
    ensures
        post.wf(),
{
    let b = post.counter as nat + 1;
    assert forall|k2: Seq<char>| sorted_by_id(#[trigger] post.spec_tasks(k2)) by {
        let s = pre.spec_tasks(k2);
        assert(sorted_by_id(s));
        assert(ids_below(s, pre.counter as nat + 1));
        if k2 == k {
            let s2 = post.spec_tasks(k);
            assert forall|a: int, b2: int|
                0 <= a < b2 < s2.len() implies (#[trigger] s2[a]).id <= (#[trigger] s2[b2]).id by {
                assert(s2[a] == s[a]);
                if b2 == s.len() {
                    assert(s2[b2] == tv);
                    assert(s[a].id < pre.counter as nat + 1);
                } else {
                    assert(s2[b2] == s[b2]);
                }
            }
        }
    }
    assert forall|k2: Seq<char>| unique_ids(#[trigger] post.spec_tasks(k2)) by {
        let s = pre.spec_tasks(k2);
        assert(unique_ids(s));
        assert(ids_below(s, pre.counter as nat + 1));
        if k2 == k {
            let s2 = post.spec_tasks(k);
            assert forall|a: int, b2: int|
                0 <= a < b2 < s2.len() implies (#[trigger] s2[a]).id != (#[trigger] s2[b2]).id by {
                assert(s2[a] == s[a]);
                if b2 == s.len() {
                    assert(s2[b2] == tv);
                    assert(s[a].id < pre.counter as nat + 1);
                } else {
                    assert(s2[b2] == s[b2]);
                }
            }
        }
    }
    assert forall|k2: Seq<char>| unique_ids(#[trigger] post.spec_deleted(k2)) by {
        assert(unique_ids(pre.spec_deleted(k2)));
    }
    assert forall|k2: Seq<char>|
        disjoint_ids(post.spec_tasks(k2), #[trigger] post.spec_deleted(k2)) by {
        let d = pre.spec_deleted(k2);
        assert(disjoint_ids(pre.spec_tasks(k2), d));
        assert(ids_below(d, pre.counter as nat + 1));
        if k2 == k {
            let s = pre.spec_tasks(k);
            let s2 = post.spec_tasks(k);
            assert forall|a: int, b2: int|
                0 <= a < s2.len() && 0 <= b2 < d.len() implies (#[trigger] s2[a]).id != (
            #[trigger] d[b2]).id by {
                if a < s.len() {
                    assert(s2[a] == s[a]);
                } else {
                    assert(s2[a] == tv);
                    assert(d[b2].id < pre.counter as nat + 1);
                }
            }
        }
    }
    assert forall|k2: Seq<char>| ids_below(#[trigger] post.spec_tasks(k2), b) by {
        let s = pre.spec_tasks(k2);
        assert(ids_below(s, pre.counter as nat + 1));
        if k2 == k {
            let s2 = post.spec_tasks(k);
            assert forall|a: int| 0 <= a < s2.len() implies (#[trigger] s2[a]).id < b by {
                if a < s.len() {
                    assert(s2[a] == s[a]);
                    assert(s[a].id < pre.counter as nat + 1);
                } else {
                    assert(s2[a] == tv);
                }
            }
        } else {
            assert forall|a: int| 0 <= a < s.len() implies (#[trigger] s[a]).id < b by {
                assert(s[a].id < pre.counter as nat + 1);
            }
        }
    }
    assert forall|k2: Seq<char>| ids_below(#[trigger] post.spec_deleted(k2), b) by {
        let d = pre.spec_deleted(k2);
        assert(ids_below(d, pre.counter as nat + 1));
        assert forall|a: int| 0 <= a < d.len() implies (#[trigger] d[a]).id < b by {
            assert(d[a].id < pre.counter as nat + 1);
        }
    }
    assert forall|k2: Seq<char>| (#[trigger] post.spec_deleted(k2)).len() <= 3 by {
        assert(pre.spec_deleted(k2).len() <= 3);
    }
}

/// The invariant survives any edit of one context's live list that keeps
/// its length and the id at every position, with the deletion queues and
/// the counter untouched.
proof fn lemma_doc_same_ids_wf(pre: DocumentStore, post: &DocumentStore, k: Seq<char>)
    requires
        pre.wf(),
        post.counter == pre.counter,
        post.deleted_tasks == pre.deleted_tasks,
        post.spec_tasks(k).len() == pre.spec_tasks(k).len(),
        forall|j: int|
            0 <= j < pre.spec_tasks(k).len() ==> (#[trigger] post.spec_tasks(k)[j]).id
                == pre.spec_tasks(k)[j].id,
        forall|k2: Seq<char>| k2 != k ==> (#[trigger] post.spec_tasks(k2)) == pre.spec_tasks(k2),
    ensures
        post.wf(),
{
    let s = pre.spec_tasks(k);
    let s2 = post.spec_tasks(k);
    let b = post.counter as nat + 1;
    assert forall|k2: Seq<char>| sorted_by_id(#[trigger] post.spec_tasks(k2)) by {
        assert(sorted_by_id(pre.spec_tasks(k2)));
        if k2 == k {
            assert forall|a: int, b2: int|
                0 <= a < b2 < s2.len() implies (#[trigger] s2[a]).id <= (#[trigger] s2[b2]).id by {
                assert(s2[a].id == s[a].id);
                assert(s2[b2].id == s[b2].id);
                assert(s[a].id <= s[b2].id);
            }
        }
    }
    assert forall|k2: Seq<char>| unique_ids(#[trigger] post.spec_tasks(k2)) by {
        assert(unique_ids(pre.spec_tasks(k2)));
        if k2 == k {
            assert forall|a: int, b2: int|
                0 <= a < b2 < s2.len() implies (#[trigger] s2[a]).id != (#[trigger] s2[b2]).id by {
                assert(s2[a].id == s[a].id);
                assert(s2[b2].id == s[b2].id);
            }
        }
    }
    assert forall|k2: Seq<char>| unique_ids(#[trigger] post.spec_deleted(k2)) by {
        assert(unique_ids(pre.spec_deleted(k2)));
    }
    assert forall|k2: Seq<char>|
        disjoint_ids(post.spec_tasks(k2), #[trigger] post.spec_deleted(k2)) by {
        assert(disjoint_ids(pre.spec_tasks(k2), pre.spec_deleted(k2)));
        if k2 == k {
            let d = pre.spec_deleted(k2);
            assert forall|a: int, b2: int|
                0 <= a < s2.len() && 0 <= b2 < d.len() implies (#[trigger] s2[a]).id != (
            #[trigger] d[b2]).id by {
                assert(s2[a].id == s[a].id);
            }
        }
    }
    assert forall|k2: Seq<char>| ids_below(#[trigger] post.spec_tasks(k2), b) by {
        assert(ids_below(pre.spec_tasks(k2), b));
        if k2 == k {
            assert forall|a: int| 0 <= a < s2.len() implies (#[trigger] s2[a]).id < b by {
                assert(s2[a].id == s[a].id);
            }
        }
    }
    assert forall|k2: Seq<char>| ids_below(#[trigger] post.spec_deleted(k2), b) by {
        assert(ids_below(pre.spec_deleted(k2), b));
    }
    assert forall|k2: Seq<char>| (#[trigger] post.spec_deleted(k2)).len() <= 3 by {
        assert(pre.spec_deleted(k2).len() <= 3);
    }
}

/// Recovers, from the remove-then-insert edits the payload operations
/// perform, that one context's list was updated in place at one position
/// (id untouched), and concludes the invariant.
proof fn lemma_doc_update(
    pre: DocumentStore,
    post: &DocumentStore,
    k: Seq<char>,
    entries0: Seq<ContextEntry<Task>>,
    ci: int,
    ti: int,
    items0: Seq<Task>,
)
    requires
        pre.wf(),
        entries0 == pre.tasks@,
        ci == key_index(entries0, k),
        0 <= ci < entries0.len(),
        entries0[ci].key@ == k,
        items0 == entries0[ci].items@,
        0 <= ti < items0.len(),
        post.counter == pre.counter,
        post.deleted_tasks == pre.deleted_tasks,
        post.tasks@ == entries0.remove(ci).insert(ci, post.tasks@[ci]),
        post.tasks@[ci].key == entries0[ci].key,
        post.tasks@[ci].items@ == items0.remove(ti).insert(ti, post.tasks@[ci].items@[ti]),
        post.tasks@[ci].items@[ti]@.id == items0[ti]@.id,
    ensures
        post.wf(),
        post.spec_tasks(k) == pre.spec_tasks(k).update(ti, post.tasks@[ci].items@[ti]@),
        forall|k2: Seq<char>| k2 != k ==> (#[trigger] post.spec_tasks(k2)) == pre.spec_tasks(k2),
        forall|k2: Seq<char>| (#[trigger] post.spec_deleted(k2)) == pre.spec_deleted(k2),
{
    let e = post.tasks@[ci];
    let tv = e.items@[ti]@;
    lemma_context_lookup(entries0, k);
    assert(post.tasks@ =~= entries0.update(ci, e));
    assert(e.items@ =~= items0.update(ti, e.items@[ti]));
    let dv0 = entries0[ci].items.deep_view();
    assert(dv0.len() == items0.len());
    assert(e.items.deep_view().len() == e.items@.len());
    assert forall|j: int| 0 <= j < e.items@.len() implies e.items.deep_view()[j] == dv0.update(
        ti,
        tv,
    )[j] by {
        if j != ti {
            assert(e.items@[j] == items0[j]);
        }
    }
    assert(e.items.deep_view() =~= dv0.update(ti, tv));
    lemma_context_update(entries0, ci, e);
    assert(post.spec_tasks(k) == pre.spec_tasks(k).update(ti, tv));
    assert forall|k2: Seq<char>|
        k2 != k implies (#[trigger] post.spec_tasks(k2)) == pre.spec_tasks(k2) by {
        assert(items_at(entries0.update(ci, e), k2) == items_at(entries0, k2));
    }
    lemma_doc_same_ids_wf(pre, post, k);
}

/// Recovers that a move exchanged the ids of two adjacent tasks of one
/// context, and concludes the invariant.
proof fn lemma_doc_exchange(
    pre: DocumentStore,
    post: &DocumentStore,
    k: Seq<char>,
    entries0: Seq<ContextEntry<Task>>,
    ci: int,
    i: int,
)
    requires
        pre.wf(),
        entries0 == pre.tasks@,
        ci == key_index(entries0, k),
        0 <= ci < entries0.len(),
        entries0[ci].key@ == k,
        1 <= i < pre.spec_tasks(k).len(),
        post.counter == pre.counter,
        post.deleted_tasks == pre.deleted_tasks,
        post.tasks@ == entries0.remove(ci).insert(ci, post.tasks@[ci]),
        post.tasks@[ci].key == entries0[ci].key,
        post.tasks@[ci].items.deep_view() == exchange_ids_adjacent(pre.spec_tasks(k), i),
        post.tasks@[ci].items@.len() == entries0[ci].items@.len(),
    ensures
        post.wf(),
        post.spec_tasks(k) == exchange_ids_adjacent(pre.spec_tasks(k), i),
        forall|k2: Seq<char>| k2 != k ==> (#[trigger] post.spec_tasks(k2)) == pre.spec_tasks(k2),
        forall|k2: Seq<char>| (#[trigger] post.spec_deleted(k2)) == pre.spec_deleted(k2),
{
    let e = post.tasks@[ci];
    let s = pre.spec_tasks(k);
    lemma_context_lookup(entries0, k);
    assert(post.tasks@ =~= entries0.update(ci, e));
    lemma_context_update(entries0, ci, e);
    assert(post.spec_tasks(k) == exchange_ids_adjacent(s, i));
    assert forall|k2: Seq<char>|
        k2 != k implies (#[trigger] post.spec_tasks(k2)) == pre.spec_tasks(k2) by {
        assert(items_at(entries0.update(ci, e), k2) == items_at(entries0, k2));
    }
    let s2 = post.spec_tasks(k);
    assert(s2.len() == s.len());
    assert forall|j: int| 0 <= j < s.len() implies (#[trigger] s2[j]).id == s[j].id by {
        if j == i - 1 {
            assert(s2[j] == TaskView { id: s[i - 1].id, ..s[i] });
        } else if j == i {
            assert(s2[j] == TaskView { id: s[i].id, ..s[i - 1] });
        } else {
            assert(s2[j] == s[j]);
        }
    }
    lemma_doc_same_ids_wf(pre, post, k);
}

/// After parking the task at one position of one context's live list in
/// its deletion queue, the invariant still holds.
proof fn lemma_doc_remove_wf(pre: DocumentStore, post: &DocumentStore, k: Seq<char>, ti: int)
    requires
        pre.wf(),
        post.counter == pre.counter,
        0 <= ti < pre.spec_tasks(k).len(),
        post.spec_tasks(k) == pre.spec_tasks(k).remove(ti),
        post.spec_deleted(k) == park(pre.spec_deleted(k), pre.spec_tasks(k)[ti]),
        forall|k2: Seq<char>| k2 != k ==> (#[trigger] post.spec_tasks(k2)) == pre.spec_tasks(k2),
        forall|k2: Seq<char>|
            k2 != k ==> (#[trigger] post.spec_deleted(k2)) == pre.spec_deleted(k2),
    ensures
        post.wf(),
{
    let s = pre.spec_tasks(k);
    let d = pre.spec_deleted(k);
    let s2 = post.spec_tasks(k);
    let d2 = post.spec_deleted(k);
    let tv = s[ti];
    let b = post.counter as nat + 1;
    assert(unique_ids(s) && unique_ids(d) && disjoint_ids(s, d) && sorted_by_id(s));
    assert(ids_below(s, b) && ids_below(d, b) && d.len() <= 3);
    assert(s2.len() == s.len() - 1);
    assert(d2.len() <= 3);
    assert(d2[0] == tv);
    assert forall|j: int| 1 <= j < d2.len() implies d2[j] == d[j - 1] by {}
    assert forall|k2: Seq<char>| sorted_by_id(#[trigger] post.spec_tasks(k2)) by {
        if k2 == k {
            assert forall|a: int, b2: int|
                0 <= a < b2 < s2.len() implies (#[trigger] s2[a]).id <= (#[trigger] s2[b2]).id by {
                let a2: int = if a < ti {
                    a
                } else {
                    a + 1
                };
                let b3: int = if b2 < ti {
                    b2
                } else {
                    b2 + 1
                };
                assert(s2[a] == s[a2]);
                assert(s2[b2] == s[b3]);
                assert(s[a2].id <= s[b3].id);
            }
        } else {
            assert(sorted_by_id(pre.spec_tasks(k2)));
        }
    }
    assert forall|k2: Seq<char>| unique_ids(#[trigger] post.spec_tasks(k2)) by {
        if k2 == k {
            assert forall|a: int, b2: int|
                0 <= a < b2 < s2.len() implies (#[trigger] s2[a]).id != (#[trigger] s2[b2]).id by {
                let a2: int = if a < ti {
                    a
                } else {
                    a + 1
                };
                let b3: int = if b2 < ti {
                    b2
                } else {
                    b2 + 1
                };
                assert(s2[a] == s[a2]);
                assert(s2[b2] == s[b3]);
                assert(s[a2].id != s[b3].id);
            }
        } else {
            assert(unique_ids(pre.spec_tasks(k2)));
        }
    }
    assert forall|k2: Seq<char>| unique_ids(#[trigger] post.spec_deleted(k2)) by {
        if k2 == k {
            assert forall|a: int, b2: int|
                0 <= a < b2 < d2.len() implies (#[trigger] d2[a]).id != (#[trigger] d2[b2]).id by {
                if a == 0 {
                    assert(d2[a] == tv);
                    assert(d2[b2] == d[b2 - 1]);
                    assert(tv.id != d[b2 - 1].id);
                } else {
                    assert(d2[a] == d[a - 1]);
                    assert(d2[b2] == d[b2 - 1]);
                    assert(d[a - 1].id != d[b2 - 1].id);
                }
            }
        } else {
            assert(unique_ids(pre.spec_deleted(k2)));
        }
    }
    assert forall|k2: Seq<char>|
        disjoint_ids(post.spec_tasks(k2), #[trigger] post.spec_deleted(k2)) by {
        if k2 == k {
            assert forall|a: int, b2: int|
                0 <= a < s2.len() && 0 <= b2 < d2.len() implies (#[trigger] s2[a]).id != (
            #[trigger] d2[b2]).id by {
                let a2: int = if a < ti {
                    a
                } else {
                    a + 1
                };
                assert(s2[a] == s[a2]);
                if b2 == 0 {
                    assert(d2[b2] == tv);
                    assert(a2 != ti);
                    assert(s[a2].id != s[ti].id);
                } else {
                    assert(d2[b2] == d[b2 - 1]);
                    assert(s[a2].id != d[b2 - 1].id);
                }
            }
        } else {
            assert(disjoint_ids(pre.spec_tasks(k2), pre.spec_deleted(k2)));
        }
    }
    assert forall|k2: Seq<char>| ids_below(#[trigger] post.spec_tasks(k2), b) by {
        if k2 == k {
            assert forall|a: int| 0 <= a < s2.len() implies (#[trigger] s2[a]).id < b by {
                let a2: int = if a < ti {
                    a
                } else {
                    a + 1
                };
                assert(s2[a] == s[a2]);
                assert(s[a2].id < b);
            }
        } else {
            assert(ids_below(pre.spec_tasks(k2), b));
        }
    }
    assert forall|k2: Seq<char>| ids_below(#[trigger] post.spec_deleted(k2), b) by {
        if k2 == k {
            assert forall|a: int| 0 <= a < d2.len() implies (#[trigger] d2[a]).id < b by {
                if a == 0 {
                    assert(d2[a] == tv);
                    assert(tv.id < b);
                } else {
                    assert(d2[a] == d[a - 1]);
                    assert(d[a - 1].id < b);
                }
            }
        } else {
            assert(ids_below(pre.spec_deleted(k2), b));
        }
    }
    assert forall|k2: Seq<char>| (#[trigger] post.spec_deleted(k2)).len() <= 3 by {
        if k2 != k {
            assert(pre.spec_deleted(k2).len() <= 3);
        }
    }
}

/// After popping the newest queued deletion of one context and
/// reinserting it into the live list at its id-sorted position, the
/// invariant still holds.
proof fn lemma_doc_undo_wf(pre: DocumentStore, post: &DocumentStore, k: Seq<char>)
    requires
        pre.wf(),
        post.counter == pre.counter,
        pre.spec_deleted(k).len() > 0,
        post.spec_tasks(k) == pre.spec_tasks(k).insert(
            sorted_insert_pos(pre.spec_tasks(k), pre.spec_deleted(k)[0].id),
            pre.spec_deleted(k)[0],
        ),
        post.spec_deleted(k) == pre.spec_deleted(k).drop_first(),
        forall|k2: Seq<char>| k2 != k ==> (#[trigger] post.spec_tasks(k2)) == pre.spec_tasks(k2),
        forall|k2: Seq<char>|
            k2 != k ==> (#[trigger] post.spec_deleted(k2)) == pre.spec_deleted(k2),
    ensures
        post.wf(),
{
    let s = pre.spec_tasks(k);
    let d = pre.spec_deleted(k);
    let s2 = post.spec_tasks(k);
    let d2 = post.spec_deleted(k);
    let tv = d[0];
    let p = sorted_insert_pos(s, tv.id);
    let b = post.counter as nat + 1;
    assert(unique_ids(s) && unique_ids(d) && disjoint_ids(s, d) && sorted_by_id(s));
    assert(ids_below(s, b) && ids_below(d, b) && d.len() <= 3);
    lemma_sorted_insert_pos(s, tv.id);
    assert(s2.len() == s.len() + 1);
    assert forall|j: int| 0 <= j < d2.len() implies d2[j] == d[j + 1] by {}
    assert forall|j: int| 0 <= j < s2.len() implies s2[j] == (if j < p {
        s[j]
    } else if j == p {
        tv
    } else {
        s[j - 1]
    }) by {}
    assert forall|k2: Seq<char>| sorted_by_id(#[trigger] post.spec_tasks(k2)) by {
        if k2 == k {
            assert forall|a: int, b2: int|
                0 <= a < b2 < s2.len() implies (#[trigger] s2[a]).id <= (#[trigger] s2[b2]).id by {
                if a < p {
                    assert(s2[a] == s[a]);
                    assert(s[a].id <= tv.id);
                } else if a == p {
                    assert(s2[a] == tv);
                } else {
                    assert(s2[a] == s[a - 1]);
                }
                if b2 < p {
                    assert(s2[b2] == s[b2]);
                } else if b2 == p {
                    assert(s2[b2] == tv);
                } else {
                    assert(s2[b2] == s[b2 - 1]);
                    assert(s[b2 - 1].id > tv.id);
                }
            }
        } else {
            assert(sorted_by_id(pre.spec_tasks(k2)));
        }
    }
    assert forall|k2: Seq<char>| unique_ids(#[trigger] post.spec_tasks(k2)) by {
        if k2 == k {
            assert forall|a: int, b2: int|
                0 <= a < b2 < s2.len() implies (#[trigger] s2[a]).id != (#[trigger] s2[b2]).id by {
                let a2: int = if a < p {
                    a
                } else {
                    a - 1
                };
                let b3: int = if b2 < p {
                    b2
                } else {
                    b2 - 1
                };
                if a == p {
                    assert(s2[a] == tv);
                    assert(s2[b2] == s[b3]);
                    assert(tv.id != s[b3].id);
                } else if b2 == p {
                    assert(s2[b2] == tv);
                    assert(s2[a] == s[a2]);
                    assert(tv.id != s[a2].id);
                } else {
                    assert(s2[a] == s[a2]);
                    assert(s2[b2] == s[b3]);
                    assert(s[a2].id != s[b3].id);
                }
            }
        } else {
            assert(unique_ids(pre.spec_tasks(k2)));
        }
    }
    assert forall|k2: Seq<char>| unique_ids(#[trigger] post.spec_deleted(k2)) by {
        if k2 == k {
            assert forall|a: int, b2: int|
                0 <= a < b2 < d2.len() implies (#[trigger] d2[a]).id != (#[trigger] d2[b2]).id by {
                assert(d2[a] == d[a + 1]);
                assert(d2[b2] == d[b2 + 1]);
                assert(d[a + 1].id != d[b2 + 1].id);
            }
        } else {
            assert(unique_ids(pre.spec_deleted(k2)));
        }
    }
    assert forall|k2: Seq<char>|
        disjoint_ids(post.spec_tasks(k2), #[trigger] post.spec_deleted(k2)) by {
        if k2 == k {
            assert forall|a: int, b2: int|
                0 <= a < s2.len() && 0 <= b2 < d2.len() implies (#[trigger] s2[a]).id != (
            #[trigger] d2[b2]).id by {
                assert(d2[b2] == d[b2 + 1]);
                if a == p {
                    assert(s2[a] == tv);
                    assert(d[0].id != d[b2 + 1].id);
                } else {
                    let a2: int = if a < p {
                        a
                    } else {
                        a - 1
                    };
                    assert(s2[a] == s[a2]);
                    assert(s[a2].id != d[b2 + 1].id);
                }
            }
        } else {
            assert(disjoint_ids(pre.spec_tasks(k2), pre.spec_deleted(k2)));
        }
    }
    assert forall|k2: Seq<char>| ids_below(#[trigger] post.spec_tasks(k2), b) by {
        if k2 == k {
            assert forall|a: int| 0 <= a < s2.len() implies (#[trigger] s2[a]).id < b by {
                if a == p {
                    assert(s2[a] == tv);
                    assert(tv.id < b);
                } else {
                    let a2: int = if a < p {
                        a
                    } else {
                        a - 1
                    };
                    assert(s2[a] == s[a2]);
                    assert(s[a2].id < b);
                }
            }
        } else {
            assert(ids_below(pre.spec_tasks(k2), b));
        }
    }
    assert forall|k2: Seq<char>| ids_below(#[trigger] post.spec_deleted(k2), b) by {
        if k2 == k {
            assert forall|a: int| 0 <= a < d2.len() implies (#[trigger] d2[a]).id < b by {
                assert(d2[a] == d[a + 1]);
                assert(d[a + 1].id < b);
            }
        } else {
            assert(ids_below(pre.spec_deleted(k2), b));
        }
    }
    assert forall|k2: Seq<char>| (#[trigger] post.spec_deleted(k2)).len() <= 3 by {
        if k2 != k {
            assert(pre.spec_deleted(k2).len() <= 3);
        }
    }
}

} // verus!
