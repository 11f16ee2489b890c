//! The task store: tasks, statuses, and the CRUD operations on the
//! ordered task collection.
//!
//! Identifiers are handed out as `last id + 1` (or `1` for the first
//! task) and are never reused; lookups take a 1-based position into
//! the current sequence.  Every fallible operation reports its failure
//! as an [`Error`] value instead of aborting, and leaves the store
//! unchanged when it fails.

use vstd::prelude::*;

verus! {

/// Lifecycle stage of a task.
#[derive(Clone, Copy, PartialEq, Eq, Debug, Structural)]
pub enum Status {
    Done,
    InProgress,
    ToDo,
}

/// The ways an invocation can fail.  The store itself only ever
/// produces `NotFound`; `Usage` and `Parse` come from command
/// dispatch and `Io` is reserved for the surrounding binary's
/// filesystem failures.
#[derive(Clone, Copy, PartialEq, Eq, Debug, Structural)]
pub enum Error {
    NotFound,
    Usage,
    Parse,
    Io,
}

/// A single to-do item: identifier, free-text message, status.
#[derive(Debug)]
pub struct Task {
    pub id: i32,
    pub message: String,
    pub status: Status,
}

/// Mathematical model of a task: the identifier as an unbounded
/// integer, the message as a sequence of characters.
pub ghost struct TaskView {
    pub id: int,
    pub message: Seq<char>,
    pub status: Status,
}

impl View for Task {
    type V = TaskView;

    open spec fn view(&self) -> TaskView {
        TaskView { id: self.id as int, message: self.message@, status: self.status }
    }
}

impl Clone for Task {
    fn clone(&self) -> (r: Self)
        ensures
            r == *self,
    {
        Task { id: self.id, message: self.message.clone(), status: self.status }
    }
}

impl Task {
    /// Replace the message; identifier and status stay as they were.
    pub fn update(&mut self, message: String)
        ensures
            final(self)@ == (TaskView { message: message@, ..old(self)@ }),
    {
        self.message = message;
    }

    /// Replace the status; identifier and message stay as they were.
    pub fn change_status(&mut self, new_status: Status)
        ensures
            final(self)@ == (TaskView { status: new_status, ..old(self)@ }),
    {
        self.status = new_status;
    }
}

/// The identifier the next created task receives.
pub open spec fn next_id(s: Seq<TaskView>) -> int {
    if s.len() == 0 {
        1
    } else {
        s.last().id + 1
    }
}

/// The sequence after a `create` with message `msg`: the new task is
/// appended with the next identifier and status `ToDo`.
pub open spec fn created(s: Seq<TaskView>, msg: Seq<char>) -> Seq<TaskView> {
    s.push(TaskView { id: next_id(s), message: msg, status: Status::ToDo })
}

/// Well-formedness of a task sequence: identifiers are at least 1,
/// fit in the identifier type, and strictly increase in insertion
/// order (so they are unique).
pub open spec fn wf_tasks(s: Seq<TaskView>) -> bool {
    &&& forall|i: int| 0 <= i < s.len() ==> 1 <= (#[trigger] s[i]).id <= i32::MAX
    &&& forall|i: int, j: int| 0 <= i < j < s.len() ==> s[i].id < s[j].id
}

/// Does a task pass the given status filter?  No filter passes all.
pub open spec fn status_matches(t: TaskView, f: Option<Status>) -> bool {
    match f {
        Option::None => true,
        Option::Some(st) => t.status == st,
    }
}

/// The subsequence of `s` passing the filter, in original order.
pub open spec fn filtered(s: Seq<TaskView>, f: Option<Status>) -> Seq<TaskView>
    decreases s.len(),
{
    if s.len() == 0 {
        Seq::empty()
    } else {
        let rest = filtered(s.drop_last(), f);
        if status_matches(s.last(), f) {
            rest.push(s.last())
        } else {
            rest
        }
    }
}

/// Well-formedness only looks at identifiers, so it carries over to
/// any sequence with the same identifiers position by position.
pub proof fn lemma_wf_same_ids(a: Seq<TaskView>, b: Seq<TaskView>)
    requires
        a.len() == b.len(),
        forall|i: int| 0 <= i < a.len() ==> a[i].id == (#[trigger] b[i]).id,
    ensures
        wf_tasks(a) ==> wf_tasks(b),
{
}

/// The ordered collection of all tasks.
#[derive(Debug)]
pub struct TaskHolder {
    pub all_tasks: Vec<Task>,
}

impl View for TaskHolder {
    type V = Seq<TaskView>;

    open spec fn view(&self) -> Seq<TaskView> {
        self.all_tasks@.map_values(|t: Task| t@)
    }
}

impl TaskHolder {
    pub open spec fn wf(&self) -> bool {
        wf_tasks(self@)
    }

    /// An empty store.
    pub fn new() -> (r: TaskHolder)
        ensures
            r@ == Seq::<TaskView>::empty(),
            r.wf(),
    {
        let r = TaskHolder { all_tasks: Vec::new() };
        proof {
            assert(r@ =~= Seq::<TaskView>::empty());
        }
        r
    }

    /// Append a new task with the next identifier and status `ToDo`.
    pub fn create(&mut self, msg: String)
        requires
            next_id(old(self)@) <= i32::MAX,
        ensures
            final(self)@ == created(old(self)@, msg@),
            old(self).wf() ==> final(self).wf(),
    {
        let n = self.all_tasks.len();
        let id: i32 = if n == 0 {
            1
        } else {
            proof {
                assert(self@[n - 1] == self.all_tasks@[n - 1]@);
                assert(self@.last().id <= i32::MAX - 1);
            }
            self.all_tasks[n - 1].id + 1
        };
        let ghost tv = TaskView { id: next_id(self@), message: msg@, status: Status::ToDo };
        self.all_tasks.push(Task { id, message: msg, status: Status::ToDo });
        proof {
            assert(final(self)@ =~= old(self)@.push(tv));
            if old(self).wf() {
                let s = final(self)@;
                assert forall|i: int, j: int| 0 <= i < j < s.len() implies s[i].id < s[j].id by {
                    if j == s.len() - 1 && i < j {
                        assert(old(self)@[i].id <= old(self)@.last().id);
                    }
                }
            }
        }
    }

    /// Remove the task at 1-based position `id`; report `NotFound`
    /// and change nothing when no task sits at that position.
    pub fn remove(&mut self, id: i32) -> (r: Result<(), Error>)
        ensures
            1 <= id && id as int <= old(self)@.len() ==> r == Ok::<(), Error>(())
                && final(self)@ == old(self)@.remove(id - 1),
            !(1 <= id && id as int <= old(self)@.len()) ==> r == Err::<(), Error>(Error::NotFound)
                && final(self)@ == old(self)@,
            old(self).wf() ==> final(self).wf(),
    {
        if 1 <= id && id as usize <= self.all_tasks.len() {
            let i = id as usize - 1;
            self.all_tasks.remove(i);
            proof {
                assert(final(self)@ =~= old(self)@.remove(id - 1));
                if old(self).wf() {
                    let s = final(self)@;
                    assert forall|a: int, b: int| 0 <= a < b < s.len() implies s[a].id < s[b].id by {
                        let oa: int = if a < i { a } else { a + 1 };
                        let ob: int = if b < i { b } else { b + 1 };
                        assert(s[a] == old(self)@[oa]);
                        assert(s[b] == old(self)@[ob]);
                    }
                }
            }
            Ok(())
        } else {
            Err(Error::NotFound)
        }
    }

    /// Replace the message of the task at 1-based position `id`;
    /// its identifier and status are untouched.  Reports `NotFound`
    /// and changes nothing when no task sits at that position.
    pub fn update(&mut self, id: i32, msg: String) -> (r: Result<(), Error>)
        ensures
            1 <= id && id as int <= old(self)@.len() ==> r == Ok::<(), Error>(())
                && final(self)@ == old(self)@.update(
                    id - 1,
                    TaskView { message: msg@, ..old(self)@[id - 1] },
                ),
            !(1 <= id && id as int <= old(self)@.len()) ==> r == Err::<(), Error>(Error::NotFound)
                && final(self)@ == old(self)@,
            old(self).wf() ==> final(self).wf(),
    {
        if 1 <= id && id as usize <= self.all_tasks.len() {
            let i = id as usize - 1;
            let t = &mut self.all_tasks[i];
            t.update(msg);
            proof {
                assert(final(self)@ =~= old(self)@.update(
                    id - 1,
                    TaskView { message: msg@, ..old(self)@[id - 1] },
                ));
                lemma_wf_same_ids(old(self)@, final(self)@);
            }
            Ok(())
        } else {
            Err(Error::NotFound)
        }
    }

    /// Set the status of the task at 1-based position `id` to `Done`.
    pub fn mark_done(&mut self, id: i32) -> (r: Result<(), Error>)
        ensures
            1 <= id && id as int <= old(self)@.len() ==> r == Ok::<(), Error>(())
                && final(self)@ == old(self)@.update(
                    id - 1,
                    TaskView { status: Status::Done, ..old(self)@[id - 1] },
                ),
            !(1 <= id && id as int <= old(self)@.len()) ==> r == Err::<(), Error>(Error::NotFound)
                && final(self)@ == old(self)@,
            old(self).wf() ==> final(self).wf(),
    {
        self.set_status(id, Status::Done)
    }

    /// Set the status of the task at 1-based position `id` to
    /// `InProgress`.
    pub fn mark_in_progress(&mut self, id: i32) -> (r: Result<(), Error>)
        ensures
            1 <= id && id as int <= old(self)@.len() ==> r == Ok::<(), Error>(())
                && final(self)@ == old(self)@.update(
                    id - 1,
                    TaskView { status: Status::InProgress, ..old(self)@[id - 1] },
                ),
            !(1 <= id && id as int <= old(self)@.len()) ==> r == Err::<(), Error>(Error::NotFound)
                && final(self)@ == old(self)@,
            old(self).wf() ==> final(self).wf(),
    {
        self.set_status(id, Status::InProgress)
    }

    /// Shared body of the two marking operations.
    fn set_status(&mut self, id: i32, st: Status) -> (r: Result<(), Error>)
        ensures
            1 <= id && id as int <= old(self)@.len() ==> r == Ok::<(), Error>(())
                && final(self)@ == old(self)@.update(
                    id - 1,
                    TaskView { status: st, ..old(self)@[id - 1] },
                ),
            !(1 <= id && id as int <= old(self)@.len()) ==> r == Err::<(), Error>(Error::NotFound)
                && final(self)@ == old(self)@,
            old(self).wf() ==> final(self).wf(),
    {
        if 1 <= id && id as usize <= self.all_tasks.len() {
            let i = id as usize - 1;
            let t = &mut self.all_tasks[i];
            t.change_status(st);
            proof {
                assert(final(self)@ =~= old(self)@.update(
                    id - 1,
                    TaskView { status: st, ..old(self)@[id - 1] },
                ));
                lemma_wf_same_ids(old(self)@, final(self)@);
            }
            Ok(())
        } else {
            Err(Error::NotFound)
        }
    }

    /// All tasks passing the status filter, in original order; no
    /// filter returns every task.
    pub fn list(&self, status: Option<Status>) -> (r: Vec<Task>)
        ensures
            r@.map_values(|t: Task| t@) == filtered(self@, status),
    {
        let mut out: Vec<Task> = Vec::new();
        let mut i: usize = 0;
        proof {
            assert(out@.map_values(|t: Task| t@) =~= filtered(self@.take(0), status));
        }
        while i < self.all_tasks.len()
            invariant
                i <= self.all_tasks.len(),
                self.all_tasks@.len() == self@.len(),
                out@.map_values(|t: Task| t@) == filtered(self@.take(i as int), status),
            decreases self.all_tasks.len() - i,
        {
            let t = &self.all_tasks[i];
            let keep = match status {
                Option::None => true,
                Option::Some(st) => t.status == st,
            };
            let ghost before = out@;
            if keep {
                out.push(t.clone());
            }
            proof {
                let pre = self@.take(i as int);
                let cur = self@.take(i + 1 as int);
                assert(cur.drop_last() =~= pre);
                assert(cur.last() == self@[i as int]);
                assert(self@[i as int] == self.all_tasks@[i as int]@);
                assert(keep == status_matches(cur.last(), status));
                if keep {
                    assert(out@ == before.push(*t));
                    assert(out@.map_values(|x: Task| x@) =~= before.map_values(
                        |x: Task| x@,
                    ).push(t@));
                }
            }
            i += 1;
        }
        proof {
            assert(self@.take(self.all_tasks@.len() as int) =~= self@);
        }
        out
    }
}

} // verus!
