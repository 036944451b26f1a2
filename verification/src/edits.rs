//! Edit intents and the batch that collects them, plus the changeset a batch
//! reports back for UI feedback.

use vstd::prelude::*;

use crate::task::{State, Task, TaskView};

verus! {

/// Mathematical value of an [`Edit`].
pub enum EditView {
    Add { text: Seq<char> },
    Remove { at: int },
    Update { at: int, state: State },
}

/// One requested edit. Positions in `Remove` and `Update` are 0-based slots
/// into the pre-batch listing; the 1-based convention of the command line is
/// normalized away by [`Edits::remove`] and [`Edits::update`].
pub enum Edit {
    Add(String),
    Remove(usize),
    Update(usize, State),
}

impl View for Edit {
    type V = EditView;

    open spec fn view(&self) -> EditView {
        match self {
            Edit::Add(text) => EditView::Add { text: text@ },
            Edit::Remove(at) => EditView::Remove { at: *at as int },
            Edit::Update(at, state) => EditView::Update { at: *at as int, state: *state },
        }
    }
}

impl DeepView for Edit {
    type V = EditView;

    open spec fn deep_view(&self) -> EditView {
        self.view()
    }
}

/// Mathematical value of a [`Changeset`].
#[verifier::ext_equal]
pub struct ChangesetView {
    pub added: Seq<Seq<char>>,
    pub updated: Seq<Seq<char>>,
    pub deleted: Seq<TaskView>,
}

impl ChangesetView {
    /// The changeset of a batch that touched nothing.
    pub open spec fn empty() -> ChangesetView {
        ChangesetView { added: Seq::empty(), updated: Seq::empty(), deleted: Seq::empty() }
    }
}

/// What one batch did: identifiers of the tasks it added and updated (each at
/// most once, in first-touch order) and the removed tasks themselves, kept by
/// value since their records no longer exist. Transient, never persisted.
pub struct Changeset {
    /// ids of the added tasks
    pub added: Vec<String>,
    /// ids of the updated tasks
    pub updated: Vec<String>,
    /// the deleted tasks
    pub deleted: Vec<Task>,
}

impl View for Changeset {
    type V = ChangesetView;

    open spec fn view(&self) -> ChangesetView {
        ChangesetView {
            added: self.added.deep_view(),
            updated: self.updated.deep_view(),
            deleted: self.deleted.deep_view(),
        }
    }
}

impl Default for Changeset {
    /// An empty changeset.
    fn default() -> (c: Changeset)
        ensures
            c@ == ChangesetView::empty(),
    {
        let c = Changeset { added: Vec::new(), updated: Vec::new(), deleted: Vec::new() };
        proof {
            assert(c@.added =~= Seq::<Seq<char>>::empty());
            assert(c@.updated =~= Seq::<Seq<char>>::empty());
            assert(c@.deleted =~= Seq::<TaskView>::empty());
        }
        c
    }
}

/// A batch of edits, in submission order.
pub struct Edits(Vec<Edit>);

impl View for Edits {
    type V = Seq<EditView>;

    closed spec fn view(&self) -> Seq<EditView> {
        self.0.deep_view()
    }
}

impl Edits {
    /// An empty batch.
    pub fn new() -> (e: Edits)
        ensures
            e@ == Seq::<EditView>::empty(),
    {
        let e = Edits(Vec::new());
        proof {
            assert(e@ =~= Seq::<EditView>::empty());
        }
        e
    }

    /// The collected intents, in submission order.
    pub fn intents(&self) -> (r: &Vec<Edit>)
        ensures
            r.deep_view() == self@,
    {
        &self.0
    }

    /// Queues the creation of a new task with the given text.
    pub fn add(&mut self, text: &str)
        ensures
            final(self)@ == old(self)@.push(EditView::Add { text: text@ }),
    {
        let owned: String = text.to_owned();
        self.0.push(Edit::Add(owned));
        proof {
            assert(final(self)@ =~= old(self)@.push(EditView::Add { text: text@ }));
        }
    }

    /// Queues the removal of the task at 1-based display position `n`.
    /// A caller-supplied 0 is clamped to the first task.
    pub fn remove(&mut self, n: usize)
        ensures
            final(self)@ == old(self)@.push(
                EditView::Remove { at: if n == 0 { 0int } else { n - 1 } },
            ),
    {
        self.0.push(Edit::Remove(n.saturating_sub(1)));
        proof {
            assert(final(self)@ =~= old(self)@.push(
                EditView::Remove { at: if n == 0 { 0int } else { n - 1 } },
            ));
        }
    }

    /// Queues a state change for the task at 1-based display position `n`.
    /// A caller-supplied 0 is clamped to the first task.
    pub fn update(&mut self, n: usize, state: State)
        ensures
            final(self)@ == old(self)@.push(
                EditView::Update { at: if n == 0 { 0int } else { n - 1 }, state: state },
            ),
    {
        self.0.push(Edit::Update(n.saturating_sub(1), state));
        proof {
            assert(final(self)@ =~= old(self)@.push(
                EditView::Update { at: if n == 0 { 0int } else { n - 1 }, state: state },
            ));
        }
    }
}

} // verus!
