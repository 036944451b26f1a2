//! The task entity: identifier, free-form text, progress state, and an
//! optional parent reference reserved for future subtask relations.

use vstd::prelude::*;

verus! {

/// Progress of a task. The order of the variants is the sort order used for
/// display: pending tasks first, then in-progress, then done.
#[derive(PartialEq, Eq, Structural, Clone, Copy, Debug)]
pub enum State {
    Pending,
    WIP,
    Done,
}

impl State {
    /// Numeric rank of the state, used as the (ascending) sort key.
    pub open spec fn ord(self) -> int {
        match self {
            State::Pending => 0,
            State::WIP => 1,
            State::Done => 2,
        }
    }

    /// Executable form of the sort key.
    pub fn rank(self) -> (r: u8)
        ensures
            r as int == self.ord(),
    {
        match self {
            State::Pending => 0,
            State::WIP => 1,
            State::Done => 2,
        }
    }
}

/// Mathematical value of a [`Task`]: the same fields over sequences of
/// characters instead of heap-allocated strings.
#[verifier::ext_equal]
pub struct TaskView {
    pub id: Seq<char>,
    pub task: Seq<char>,
    pub state: State,
    pub parent: Option<Seq<char>>,
}

/// A to-do item. `id` is its storage key, generated once at creation and
/// immutable afterwards; `task` is the description; `parent` is reserved and
/// never populated by any operation here.
#[derive(Debug)]
pub struct Task {
    pub id: String,
    pub task: String,
    pub state: State,
    pub parent: Option<String>,
}

impl View for Task {
    type V = TaskView;

    open spec fn view(&self) -> TaskView {
        TaskView {
            id: self.id@,
            task: self.task@,
            state: self.state,
            parent: self.parent.deep_view(),
        }
    }
}

impl DeepView for Task {
    type V = TaskView;

    open spec fn deep_view(&self) -> TaskView {
        self.view()
    }
}

impl Clone for Task {
    fn clone(&self) -> (t: Self)
        ensures
            t@ == self@,
    {
        Task {
            id: self.id.clone(),
            task: self.task.clone(),
            state: self.state,
            parent: match &self.parent {
                Some(p) => Some(p.clone()),
                None => None,
            },
        }
    }
}

/// Characters that a generated identifier is made of: lower-case hexadecimal
/// digits and hyphens. In particular no line break, so identifiers can stand
/// one per line in the order index.
pub open spec fn id_char(c: char) -> bool {
    ('0' <= c && c <= '9') || ('a' <= c && c <= 'f') || c == '-'
}

/// A well-formed generated identifier: the 36-character hyphenated form.
pub open spec fn id_wf(s: Seq<char>) -> bool {
    &&& s.len() == 36
    &&& forall|i: int| 0 <= i < s.len() ==> id_char(#[trigger] s[i])
}

/// Relies on `uuid::Uuid::new_v4` and the `Display` form of `Uuid`: a random
/// version-4 UUID rendered hyphenated, i.e. 36 characters, each a lower-case
/// hexadecimal digit or a hyphen. The value itself is random, so nothing more
/// is promised of it.
#[verifier::external_body]
pub(crate) fn fresh_id() -> (r: String)
    ensures
        id_wf(r@),
{
    uuid::Uuid::new_v4().to_string()
}

impl Task {
    /// Builds a task from an already chosen identifier: pending, no parent.
    pub fn with_id(id: String, text: String) -> (t: Task)
        ensures
            t@ == (TaskView { id: id@, task: text@, state: State::Pending, parent: None }),
    {
        Task { id, task: text, state: State::Pending, parent: None }
    }

    /// Creates a task with a freshly generated identifier, pending, no parent.
    pub fn new(text: String) -> (t: Task)
        ensures
            id_wf(t@.id),
            t@.task == text@,
            t@.state == State::Pending,
            t@.parent is None,
    {
        let id = fresh_id();
        Task::with_id(id, text)
    }
}

} // verus!
