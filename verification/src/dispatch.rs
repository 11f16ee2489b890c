//! The command dispatcher: maps an argument vector to one of the six
//! actions, and runs one action against a task store.

use vstd::prelude::*;
use crate::num::{int_value, is_int_literal, parse_i32};
use crate::store::{created, filtered, next_id, Error, Status, Task, TaskHolder, TaskView};

verus! {

/// One invocation's worth of work, as parsed from the arguments.
#[derive(Debug)]
pub enum Action {
    List(Option<Status>),
    Create(String),
    Remove(i32),
    Update(i32, String),
    MarkDone(i32),
    MarkInProgress(i32),
}

/// Mathematical model of an action.
pub ghost enum ActionView {
    List(Option<Status>),
    Create(Seq<char>),
    Remove(int),
    Update(int, Seq<char>),
    MarkDone(int),
    MarkInProgress(int),
}

impl View for Action {
    type V = ActionView;

    open spec fn view(&self) -> ActionView {
        match self {
            Action::List(f) => ActionView::List(*f),
            Action::Create(m) => ActionView::Create(m@),
            Action::Remove(id) => ActionView::Remove(*id as int),
            Action::Update(id, m) => ActionView::Update(*id as int, m@),
            Action::MarkDone(id) => ActionView::MarkDone(*id as int),
            Action::MarkInProgress(id) => ActionView::MarkInProgress(*id as int),
        }
    }
}

/// What an id token yields: its value when it is an integer literal
/// in range of the id type, a `Parse` error otherwise.
pub open spec fn id_of(tok: Seq<char>) -> Result<int, Error> {
    if is_int_literal(tok) && i32::MIN <= int_value(tok) <= i32::MAX {
        Ok(int_value(tok))
    } else {
        Err(Error::Parse)
    }
}

/// The action an argument vector names, or the error rejecting it.
/// `a[0]` is the program name; `a[1]` the action token.  A missing or
/// unknown token is a `Usage` error, a bad id token a `Parse` error;
/// tokens past the ones an action needs are ignored.
pub open spec fn parsed_action(a: Seq<Seq<char>>) -> Result<ActionView, Error> {
    if a.len() < 2 {
        Err(Error::Usage)
    } else if a[1] == "list"@ {
        if a.len() == 2 {
            Ok(ActionView::List(Option::None))
        } else if a[2] == "done"@ {
            Ok(ActionView::List(Option::Some(Status::Done)))
        } else if a[2] == "todo"@ {
            Ok(ActionView::List(Option::Some(Status::ToDo)))
        } else if a[2] == "inprogress"@ {
            Ok(ActionView::List(Option::Some(Status::InProgress)))
        } else {
            Err(Error::Usage)
        }
    } else if a[1] == "create"@ {
        if a.len() >= 3 {
            Ok(ActionView::Create(a[2]))
        } else {
            Err(Error::Usage)
        }
    } else if a[1] == "remove"@ {
        if a.len() >= 3 {
            match id_of(a[2]) {
                Ok(n) => Ok(ActionView::Remove(n)),
                Err(e) => Err(e),
            }
        } else {
            Err(Error::Usage)
        }
    } else if a[1] == "update"@ {
        if a.len() >= 4 {
            match id_of(a[2]) {
                Ok(n) => Ok(ActionView::Update(n, a[3])),
                Err(e) => Err(e),
            }
        } else {
            Err(Error::Usage)
        }
    } else if a[1] == "mark-done"@ {
        if a.len() >= 3 {
            match id_of(a[2]) {
                Ok(n) => Ok(ActionView::MarkDone(n)),
                Err(e) => Err(e),
            }
        } else {
            Err(Error::Usage)
        }
    } else if a[1] == "mark-in-progress"@ {
        if a.len() >= 3 {
            match id_of(a[2]) {
                Ok(n) => Ok(ActionView::MarkInProgress(n)),
                Err(e) => Err(e),
            }
        } else {
            Err(Error::Usage)
        }
    } else {
        Err(Error::Usage)
    }
}

/// Does this string hold exactly the literal's characters?
pub(crate) fn str_is(s: &String, lit: &str) -> (r: bool)
    ensures
        r == (s@ == lit@),
{
    s.eq(&String::from_str(lit))
}

/// Parse the argument vector (program name first) into the action it
/// names, exactly as [`parsed_action`] reads it.
pub fn parse_action(args: &Vec<String>) -> (r: Result<Action, Error>)
    ensures
        (match r {
            Ok(act) => Ok(act@),
            Err(e) => Err::<ActionView, Error>(e),
        }) == parsed_action(args.deep_view()),
{
    let ghost a = args.deep_view();
    proof {
        assert(a.len() == args@.len());
        assert(forall|i: int| 0 <= i < a.len() ==> a[i] == args@[i]@);
    }
    if args.len() < 2 {
        return Err(Error::Usage);
    }
    let action = &args[1];
    if str_is(action, "list") {
        if args.len() == 2 {
            Ok(Action::List(None))
        } else {
            let tok = &args[2];
            if str_is(tok, "done") {
                Ok(Action::List(Some(Status::Done)))
            } else if str_is(tok, "todo") {
                Ok(Action::List(Some(Status::ToDo)))
            } else if str_is(tok, "inprogress") {
                Ok(Action::List(Some(Status::InProgress)))
            } else {
                Err(Error::Usage)
            }
        }
    } else if str_is(action, "create") {
        if args.len() >= 3 {
            Ok(Action::Create(args[2].clone()))
        } else {
            Err(Error::Usage)
        }
    } else if str_is(action, "remove") {
        if args.len() >= 3 {
            match parse_i32(args[2].as_str()) {
                Ok(n) => Ok(Action::Remove(n)),
                Err(e) => Err(e),
            }
        } else {
            Err(Error::Usage)
        }
    } else if str_is(action, "update") {
        if args.len() >= 4 {
            match parse_i32(args[2].as_str()) {
                Ok(n) => Ok(Action::Update(n, args[3].clone())),
                Err(e) => Err(e),
            }
        } else {
            Err(Error::Usage)
        }
    } else if str_is(action, "mark-done") {
        if args.len() >= 3 {
            match parse_i32(args[2].as_str()) {
                Ok(n) => Ok(Action::MarkDone(n)),
                Err(e) => Err(e),
            }
        } else {
            Err(Error::Usage)
        }
    } else if str_is(action, "mark-in-progress") {
        if args.len() >= 3 {
            match parse_i32(args[2].as_str()) {
                Ok(n) => Ok(Action::MarkInProgress(n)),
                Err(e) => Err(e),
            }
        } else {
            Err(Error::Usage)
        }
    } else {
        Err(Error::Usage)
    }
}

/// Run one action against the store.  Listing leaves the store alone
/// and returns the tasks to show; the mutations return no tasks and
/// either succeed or report `NotFound` leaving the store unchanged.
pub fn apply(h: &mut TaskHolder, action: Action) -> (r: Result<Vec<Task>, Error>)
    requires
        action@ matches ActionView::Create(_) ==> next_id(old(h)@) <= i32::MAX,
    ensures
        old(h).wf() ==> final(h).wf(),
        match action@ {
            ActionView::List(f) => r matches Ok(v) && v@.map_values(|t: Task| t@) == filtered(
                old(h)@,
                f,
            ) && final(h)@ == old(h)@,
            ActionView::Create(m) => r matches Ok(v) && v@.len() == 0 && final(h)@ == created(
                old(h)@,
                m,
            ),
            ActionView::Remove(id) => if 1 <= id <= old(h)@.len() {
                r matches Ok(v) && v@.len() == 0 && final(h)@ == old(h)@.remove(id - 1)
            } else {
                r matches Err(e) && e == Error::NotFound && final(h)@ == old(h)@
            },
            ActionView::Update(id, m) => if 1 <= id <= old(h)@.len() {
                r matches Ok(v) && v@.len() == 0 && final(h)@ == old(h)@.update(
                    id - 1,
                    (TaskView { message: m, ..old(h)@[id - 1] }),
                )
            } else {
                r matches Err(e) && e == Error::NotFound && final(h)@ == old(h)@
            },
            ActionView::MarkDone(id) => if 1 <= id <= old(h)@.len() {
                r matches Ok(v) && v@.len() == 0 && final(h)@ == old(h)@.update(
                    id - 1,
                    (TaskView { status: Status::Done, ..old(h)@[id - 1] }),
                )
            } else {
                r matches Err(e) && e == Error::NotFound && final(h)@ == old(h)@
            },
            ActionView::MarkInProgress(id) => if 1 <= id <= old(h)@.len() {
                r matches Ok(v) && v@.len() == 0 && final(h)@ == old(h)@.update(
                    id - 1,
                    (TaskView { status: Status::InProgress, ..old(h)@[id - 1] }),
                )
            } else {
                r matches Err(e) && e == Error::NotFound && final(h)@ == old(h)@
            },
        },
{
    match action {
        Action::List(f) => Ok(h.list(f)),
        Action::Create(m) => {
            h.create(m);
            Ok(Vec::new())
        },
        Action::Remove(id) => match h.remove(id) {
            Ok(()) => Ok(Vec::new()),
            Err(e) => Err(e),
        },
        Action::Update(id, m) => match h.update(id, m) {
            Ok(()) => Ok(Vec::new()),
            Err(e) => Err(e),
        },
        Action::MarkDone(id) => match h.mark_done(id) {
            Ok(()) => Ok(Vec::new()),
            Err(e) => Err(e),
        },
        Action::MarkInProgress(id) => match h.mark_in_progress(id) {
            Ok(()) => Ok(Vec::new()),
            Err(e) => Err(e),
        },
    }
}

/// The usage text shown when an argument vector names no action.
pub open spec fn usage_msg() -> Seq<char> {
    "\nBad action!\n\nUse following: \ncreate Message\nupdate id newMessage\ndelete id\nmark-in-progress id\nmark-done id\nlist status[done,todo,inprogress](not required)\n\n"@
}

/// The usage message handed out on a `Usage` error.
pub fn panic_error() -> (r: String)
    ensures
        r@ == usage_msg(),
{
    String::from_str(
        "\nBad action!\n\nUse following: \ncreate Message\nupdate id newMessage\ndelete id\nmark-in-progress id\nmark-done id\nlist status[done,todo,inprogress](not required)\n\n",
    )
}

/// The message text of each error, for the surrounding binary to
/// print.
pub open spec fn error_msg(e: Error) -> Seq<char> {
    match e {
        Error::NotFound => "Did not found a Task with that index!"@,
        Error::Usage => usage_msg(),
        Error::Parse => "Could not read the id as an integer!"@,
        Error::Io => "Could not access the tasks file!"@,
    }
}

impl Error {
    /// The text a failing invocation reports for this error.
    pub fn message(&self) -> (r: String)
        ensures
            r@ == error_msg(*self),
    {
        match self {
            Error::NotFound => String::from_str("Did not found a Task with that index!"),
            Error::Usage => panic_error(),
            Error::Parse => String::from_str("Could not read the id as an integer!"),
            Error::Io => String::from_str("Could not access the tasks file!"),
        }
    }
}

} // verus!
