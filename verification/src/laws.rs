//! Proved laws relating the store operations: identifier assignment
//! across runs of `create`, and how listing interacts with creating,
//! marking and removing.

use vstd::prelude::*;
use crate::store::{
    created, filtered, lemma_wf_same_ids, next_id, status_matches, wf_tasks, Status, TaskView,
};

verus! {

/// The store obtained by creating one task per message of `msgs`,
/// in order, starting from the empty store.
pub open spec fn created_all(msgs: Seq<Seq<char>>) -> Seq<TaskView>
    decreases msgs.len(),
{
    if msgs.len() == 0 {
        Seq::empty()
    } else {
        created(created_all(msgs.drop_last()), msgs.last())
    }
}

/// For any run of `create` calls on an empty store, the nth created
/// task has identifier n (1-based): identifiers are assigned
/// consecutively and never reused.  The resulting store is
/// well-formed.
pub proof fn lemma_create_ids(msgs: Seq<Seq<char>>)
    ensures
        created_all(msgs).len() == msgs.len(),
        forall|n: int|
            0 <= n < msgs.len() ==> (#[trigger] created_all(msgs)[n]) == (TaskView {
                id: n + 1,
                message: msgs[n],
                status: Status::ToDo,
            }),
        msgs.len() <= i32::MAX ==> wf_tasks(created_all(msgs)),
    decreases msgs.len(),
{
    if msgs.len() > 0 {
        lemma_create_ids(msgs.drop_last());
        let prev = created_all(msgs.drop_last());
        assert(next_id(prev) == msgs.len());
        assert(created_all(msgs) == prev.push(TaskView {
            id: msgs.len() as int,
            message: msgs.last(),
            status: Status::ToDo,
        }));
        let r = created_all(msgs);
        assert(forall|n: int| 0 <= n < r.len() ==> (#[trigger] r[n]).id == n + 1);
    }
}

/// Filtering with no filter keeps every task: listing without a
/// status returns the store's tasks exactly, in order.
pub proof fn lemma_filter_none_identity(s: Seq<TaskView>)
    ensures
        filtered(s, Option::None) == s,
    decreases s.len(),
{
    if s.len() > 0 {
        lemma_filter_none_identity(s.drop_last());
        assert(filtered(s, Option::None) =~= s);
    }
}

/// Creating a task and then listing with no filter shows the old
/// tasks followed by the new one, which carries status `ToDo`; on an
/// empty store the listing is exactly that one task.
pub proof fn lemma_create_then_list(s: Seq<TaskView>, msg: Seq<char>)
    ensures
        filtered(created(s, msg), Option::None) == s.push(
            (TaskView { id: next_id(s), message: msg, status: Status::ToDo }),
        ),
        s.len() == 0 ==> filtered(created(s, msg), Option::None) == seq![
            (TaskView { id: 1, message: msg, status: Status::ToDo }),
        ],
{
    lemma_filter_none_identity(created(s, msg));
    if s.len() == 0 {
        assert(created(s, msg) =~= seq![
            (TaskView { id: 1, message: msg, status: Status::ToDo }),
        ]);
    }
}

/// A task that passes the filter appears in the filtered listing.
pub proof fn lemma_filtered_contains(s: Seq<TaskView>, f: Option<Status>, i: int)
    requires
        0 <= i < s.len(),
        status_matches(s[i], f),
    ensures
        filtered(s, f).contains(s[i]),
    decreases s.len(),
{
    if i == s.len() - 1 {
        let r = filtered(s, f);
        assert(r.last() == s[i]);
        assert(r.contains(s[i]));
    } else {
        assert(s.drop_last()[i] == s[i]);
        lemma_filtered_contains(s.drop_last(), f, i);
        let rest = filtered(s.drop_last(), f);
        let k = choose|k: int| 0 <= k < rest.len() && rest[k] == s[i];
        if status_matches(s.last(), f) {
            assert(rest.push(s.last())[k] == s[i]);
        }
    }
}

/// If no task passing the filter carries identifier `tid`, then no
/// task in the filtered listing does either.
pub proof fn lemma_filtered_excludes_id(s: Seq<TaskView>, f: Option<Status>, tid: int)
    requires
        forall|j: int|
            0 <= j < s.len() && status_matches(#[trigger] s[j], f) ==> s[j].id != tid,
    ensures
        forall|k: int|
            0 <= k < filtered(s, f).len() ==> (#[trigger] filtered(s, f)[k]).id != tid,
    decreases s.len(),
{
    if s.len() > 0 {
        assert forall|j: int|
            0 <= j < s.drop_last().len() && status_matches(#[trigger] s.drop_last()[j], f)
            implies s.drop_last()[j].id != tid by {
            assert(s.drop_last()[j] == s[j]);
        }
        lemma_filtered_excludes_id(s.drop_last(), f, tid);
        let rest = filtered(s.drop_last(), f);
        if status_matches(s.last(), f) {
            assert(s[s.len() - 1].id != tid);
            assert forall|k: int|
                0 <= k < filtered(s, f).len() implies (#[trigger] filtered(s, f)[k]).id != tid by {
                if k < rest.len() {
                    assert(filtered(s, f)[k] == rest[k]);
                } else {
                    assert(filtered(s, f)[k] == s.last());
                }
            }
        }
    }
}

/// Marking a task done puts it in the `Done` listing and keeps it out
/// of the `ToDo` listing (identifiers are unique in a well-formed
/// store, so "the task" is the one carrying that identifier).
pub proof fn lemma_mark_done_then_list(s: Seq<TaskView>, id: int)
    requires
        wf_tasks(s),
        1 <= id <= s.len(),
    ensures
        ({
            let m = s.update(id - 1, (TaskView { status: Status::Done, ..s[id - 1] }));
            &&& filtered(m, Option::Some(Status::Done)).contains(m[id - 1])
            &&& forall|k: int|
                0 <= k < filtered(m, Option::Some(Status::ToDo)).len()
                    ==> (#[trigger] filtered(m, Option::Some(Status::ToDo))[k]).id != s[id - 1].id
        }),
{
    let m = s.update(id - 1, (TaskView { status: Status::Done, ..s[id - 1] }));
    lemma_wf_same_ids(s, m);
    lemma_filtered_contains(m, Option::Some(Status::Done), id - 1);
    assert forall|j: int|
        0 <= j < m.len() && status_matches(#[trigger] m[j], Option::Some(Status::ToDo))
        implies m[j].id != s[id - 1].id by {
        if j != id - 1 {
            if j < id - 1 {
                assert(m[j].id < m[id - 1].id);
            } else {
                assert(m[id - 1].id < m[j].id);
            }
        }
    }
    lemma_filtered_excludes_id(m, Option::Some(Status::ToDo), s[id - 1].id);
}

/// Removing a task shrinks the store by exactly one and leaves no
/// task with the removed identifier; listing afterwards no longer
/// shows it.  An identifier past the new length no longer maps to a
/// valid position, so repeating the removal reports `NotFound`.
pub proof fn lemma_remove_then_list(s: Seq<TaskView>, id: int)
    requires
        wf_tasks(s),
        1 <= id <= s.len(),
    ensures
        ({
            let m = s.remove(id - 1);
            &&& m.len() == s.len() - 1
            &&& forall|j: int| 0 <= j < m.len() ==> (#[trigger] m[j]).id != s[id - 1].id
            &&& forall|k: int|
                0 <= k < filtered(m, Option::None).len()
                    ==> (#[trigger] filtered(m, Option::None)[k]).id != s[id - 1].id
        }),
{
    let m = s.remove(id - 1);
    assert forall|j: int| 0 <= j < m.len() implies (#[trigger] m[j]).id != s[id - 1].id by {
        if j < id - 1 {
            assert(m[j] == s[j]);
        } else {
            assert(m[j] == s[j + 1]);
        }
    }
    lemma_filtered_excludes_id(m, Option::None, s[id - 1].id);
}

} // verus!
