//! The task record: an id, a description, and a completion flag,
//! together with its one-line human-readable rendering.

use vstd::prelude::*;
use vstd::string::StringExecFns;
use crate::numeral::dec_rep;
use crate::numeral::usize_to_string;

verus! {

/// A unit of work: an id, a description, and a completion flag.
pub struct Task {
    pub id: usize,
    pub description: String,
    pub completed: bool,
}

/// The mathematical value of a [`Task`].
#[verifier::ext_equal]
pub struct TaskView {
    pub id: nat,
    pub description: Seq<char>,
    pub completed: bool,
}

impl View for Task {
    type V = TaskView;

    open spec fn view(&self) -> TaskView {
        TaskView { id: self.id as nat, description: self.description@, completed: self.completed }
    }
}

/// The completion marker of a rendered task line: a checkmark when the
/// task is complete, a blank otherwise.
pub open spec fn marker(completed: bool) -> Seq<char> {
    if completed {
        "✓"@
    } else {
        " "@
    }
}

/// The one-line display form of a task:
/// `[<marker>] Task <id>: <description>`.
pub open spec fn display_rep(t: TaskView) -> Seq<char> {
    "["@ + marker(t.completed) + "] Task "@ + dec_rep(t.id) + ": "@ + t.description
}

impl Task {
    /// A fresh, incomplete task.
    pub fn new(id: usize, description: String) -> (t: Task)
        ensures
            t.id == id,
            t.description == description,
            !t.completed,
    {
        Task { id, description, completed: false }
    }

    /// Mark the task complete; the other fields are untouched.
    pub fn complete(&mut self)
        ensures
            final(self).id == old(self).id,
            final(self).description == old(self).description,
            final(self).completed,
    {
        self.completed = true;
    }

    /// Render the task for display.
    pub fn render(&self) -> (line: String)
        ensures
            line@ == display_rep(self@),
    {
        let mut line = String::new();
        line.append("[");
        if self.completed {
            line.append("✓");
        } else {
            line.append(" ");
        }
        line.append("] Task ");
        let id_text = usize_to_string(self.id);
        line.append(id_text.as_str());
        line.append(": ");
        line.append(self.description.as_str());
        proof {
            assert(line@ =~= display_rep(self@));
        }
        line
    }
}

} // verus!
