//! Spec-level vocabulary for ordered sequences of task views.

use vstd::prelude::*;

use crate::task::TaskView;

verus! {

/// Index of the first task with the given id, or -1 if no task carries it.
pub open spec fn index_of_id(s: Seq<TaskView>, id: nat) -> int
    decreases s.len(),
{
    if s.len() == 0 {
        -1
    } else if s[0].id == id {
        0
    } else {
        let r = index_of_id(s.drop_first(), id);
        if r < 0 {
            -1
        } else {
            r + 1
        }
    }
}

/// Whether some task in the sequence carries the given id.
pub open spec fn contains_id(s: Seq<TaskView>, id: nat) -> bool {
    index_of_id(s, id) >= 0
}

/// The task with its status replaced.
pub open spec fn with_status(t: TaskView, status: crate::task::TaskStatus) -> TaskView {
    TaskView { status, ..t }
}

/// The task with its text replaced.
pub open spec fn with_text(t: TaskView, text: Seq<char>) -> TaskView {
    TaskView { text, ..t }
}

/// Every id in the sequence lies below the bound.
pub open spec fn ids_below(s: Seq<TaskView>, bound: nat) -> bool {
    forall|i: int| 0 <= i < s.len() ==> (#[trigger] s[i]).id < bound
}

/// No two tasks in the sequence share an id.
pub open spec fn unique_ids(s: Seq<TaskView>) -> bool {
    forall|i: int, j: int| 0 <= i < j < s.len() ==> (#[trigger] s[i]).id != (#[trigger] s[j]).id
}

/// No id occurs in both sequences.
pub open spec fn disjoint_ids(a: Seq<TaskView>, b: Seq<TaskView>) -> bool {
    forall|i: int, j: int|
        0 <= i < a.len() && 0 <= j < b.len() ==> (#[trigger] a[i]).id != (#[trigger] b[j]).id
}

/// The undo queue after parking a freshly deleted task: the task is
/// prepended as the newest entry and the queue is trimmed to its capacity
/// of three.
pub open spec fn park(q: Seq<TaskView>, t: TaskView) -> Seq<TaskView> {
    let grown = q.insert(0, t);
    if grown.len() <= 3 {
        grown
    } else {
        grown.take(3)
    }
}

/// The sequence with the tasks at two adjacent positions exchanged.
pub open spec fn swap_adjacent(s: Seq<TaskView>, i: int) -> Seq<TaskView> {
    s.update(i, s[i - 1]).update(i - 1, s[i])
}

/// `index_of_id` points at the first task with the id, and a negative
/// answer means the id is absent.
pub proof fn lemma_index_of_id_char(s: Seq<TaskView>, id: nat)
    ensures
        index_of_id(s, id) < 0 ==> (forall|j: int| 0 <= j < s.len() ==> (#[trigger] s[j]).id != id),
        index_of_id(s, id) >= 0 ==> 0 <= index_of_id(s, id) < s.len() && s[index_of_id(s, id)].id
            == id && (forall|j: int|
            0 <= j < index_of_id(s, id) ==> (#[trigger] s[j]).id != id),
    decreases s.len(),
{
    if s.len() == 0 {
    } else if s[0].id == id {
    } else {
        let df = s.drop_first();
        lemma_index_of_id_char(df, id);
        if index_of_id(df, id) < 0 {
            assert forall|j: int| 0 <= j < s.len() implies (#[trigger] s[j]).id != id by {
                if j > 0 {
                    assert(df[j - 1] == s[j]);
                    assert(df[j - 1].id != id);
                }
            }
        } else {
            let m = index_of_id(df, id);
            assert(index_of_id(s, id) == m + 1);
            assert(s[m + 1] == df[m]);
            assert forall|j: int| 0 <= j < m + 1 implies (#[trigger] s[j]).id != id by {
                if j > 0 {
                    assert(df[j - 1] == s[j]);
                    assert(df[j - 1].id != id);
                }
            }
        }
    }
}

/// In a sequence without duplicate ids, the first match is the only task
/// with that id, so updating it in place rewrites every occurrence.
pub proof fn lemma_index_of_id_unique(s: Seq<TaskView>, id: nat, j: int)
    requires
        unique_ids(s),
        0 <= j < s.len(),
        s[j].id == id,
    ensures
        index_of_id(s, id) == j,
{
    lemma_index_of_id_char(s, id);
    if index_of_id(s, id) < 0 {
        assert(s[j].id != id);
    } else {
        let i = index_of_id(s, id);
        if i < j {
            assert(s[i].id != s[j].id);
        } else if i > j {
            assert(s[j].id != id);
        }
    }
}

/// Exchanging two adjacent tasks keeps exactly the same collection of
/// task records: every task value occurs as often after the swap as
/// before, so each id stays attached to the same text, status, and
/// creation time.
pub proof fn lemma_swap_preserves_tasks(s: Seq<TaskView>, i: int)
    requires
        1 <= i < s.len(),
    ensures
        swap_adjacent(s, i).to_multiset() == s.to_multiset(),
        swap_adjacent(s, i).len() == s.len(),
        forall|t: TaskView| swap_adjacent(s, i).contains(t) <==> s.contains(t),
{
    broadcast use vstd::seq_lib::to_multiset_update;
    broadcast use vstd::seq_lib::group_to_multiset_ensures;

    let s1 = s.update(i, s[i - 1]);
    assert(s1.to_multiset() == s.to_multiset().insert(s[i - 1]).remove(s[i]));
    assert(s1[i - 1] == s[i - 1]);
    assert(swap_adjacent(s, i).to_multiset() == s1.to_multiset().insert(s[i]).remove(s[i - 1]));
    assert(s.to_multiset().contains(s[i]));
    assert(swap_adjacent(s, i).to_multiset() =~= s.to_multiset());
    assert forall|t: TaskView| swap_adjacent(s, i).contains(t) <==> s.contains(t) by {
        assert(swap_adjacent(s, i).contains(t) <==> swap_adjacent(s, i).to_multiset().count(t)
            > 0);
        assert(s.contains(t) <==> s.to_multiset().count(t) > 0);
    }
}

} // verus!
