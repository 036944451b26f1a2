//! The batch edit engine: applies a sequence of edit intents against a
//! positional snapshot of the current ordered listing, tracks what changed,
//! and produces the final state-sorted listing whose identifiers become the
//! new order index.
//!
//! Positions in intents always refer to the pre-batch listing: a removal
//! empties its slot instead of shifting later tasks, so later intents that
//! name the same numeric position are unaffected by earlier removals.

use vstd::prelude::*;

use crate::edits::{Changeset, ChangesetView, Edit, EditView, Edits};
use crate::task::{fresh_id, id_wf, State, Task, TaskView};

verus! {

/// Running state of a batch: the positional snapshot (`None` marks a removed
/// slot), the buffer of newly added tasks, the changeset so far, and how many
/// fresh identifiers have been consumed.
#[verifier::ext_equal]
pub struct BatchView {
    pub slots: Seq<Option<TaskView>>,
    pub added_tasks: Seq<TaskView>,
    pub cs: ChangesetView,
    pub ids_used: int,
}

/// The task that an `Add` intent creates: given text, pending, no parent.
pub open spec fn new_task(id: Seq<char>, text: Seq<char>) -> TaskView {
    TaskView { id: id, task: text, state: State::Pending, parent: None }
}

/// The snapshot of a listing before any intent ran: every task in its slot.
pub open spec fn occupied(tasks: Seq<TaskView>) -> Seq<Option<TaskView>> {
    tasks.map_values(|t: TaskView| Some(t))
}

/// Batch state before any intent ran: every pre-batch task occupies its slot.
pub open spec fn batch_init(tasks: Seq<TaskView>) -> BatchView {
    BatchView {
        slots: occupied(tasks),
        added_tasks: Seq::empty(),
        cs: ChangesetView::empty(),
        ids_used: 0,
    }
}

/// Effect of one intent on the running batch state. `ids` supplies the fresh
/// identifiers, consumed left to right by `Add` intents. Out-of-range and
/// already-emptied positions are ignored, never an error.
pub open spec fn batch_step(b: BatchView, e: EditView, ids: Seq<Seq<char>>) -> BatchView {
    match e {
        EditView::Add { text } => {
            let t = new_task(ids[b.ids_used], text);
            BatchView {
                added_tasks: b.added_tasks.push(t),
                cs: ChangesetView { added: b.cs.added.push(t.id), ..b.cs },
                ids_used: b.ids_used + 1,
                ..b
            }
        },
        EditView::Remove { at } => {
            if 0 <= at < b.slots.len() && b.slots[at] is Some {
                BatchView {
                    slots: b.slots.update(at, None),
                    cs: ChangesetView { deleted: b.cs.deleted.push(b.slots[at]->0), ..b.cs },
                    ..b
                }
            } else {
                b
            }
        },
        EditView::Update { at, state } => {
            if 0 <= at < b.slots.len() && b.slots[at] is Some {
                let t = b.slots[at]->0;
                BatchView {
                    slots: b.slots.update(at, Some(TaskView { state: state, ..t })),
                    cs: ChangesetView {
                        updated: if b.cs.updated.contains(t.id) {
                            b.cs.updated
                        } else {
                            b.cs.updated.push(t.id)
                        },
                        ..b.cs
                    },
                    ..b
                }
            } else {
                b
            }
        },
    }
}

/// Batch state after the whole intent sequence ran, in submission order.
pub open spec fn batch_run(tasks: Seq<TaskView>, edits: Seq<EditView>, ids: Seq<Seq<char>>) -> BatchView
    decreases edits.len(),
{
    if edits.len() == 0 {
        batch_init(tasks)
    } else {
        batch_step(batch_run(tasks, edits.drop_last(), ids), edits.last(), ids)
    }
}

/// How many fresh identifiers a batch needs: one per `Add` intent.
pub open spec fn count_adds(edits: Seq<EditView>) -> int
    decreases edits.len(),
{
    if edits.len() == 0 {
        0
    } else {
        count_adds(edits.drop_last()) + if edits.last() is Add { 1int } else { 0int }
    }
}

/// The occupied slots of the snapshot, in original order.
pub open spec fn survivors(slots: Seq<Option<TaskView>>) -> Seq<TaskView>
    decreases slots.len(),
{
    if slots.len() == 0 {
        Seq::empty()
    } else {
        let rest = survivors(slots.drop_last());
        match slots.last() {
            Some(t) => rest.push(t),
            None => rest,
        }
    }
}

/// One step of [`survivors`]: a pushed occupied slot appends its task, a
/// pushed empty slot changes nothing.
pub proof fn lemma_survivors_push(s: Seq<Option<TaskView>>, x: Option<TaskView>)
    ensures
        survivors(s.push(x)) == (if x is Some {
            survivors(s).push(x->0)
        } else {
            survivors(s)
        }),
{
    assert(s.push(x).drop_last() =~= s);
    assert(s.push(x).last() == x);
}

/// Pre-sort concatenation of a finished batch: newly added tasks first, in
/// submission order, then the surviving pre-batch tasks, in original order.
pub open spec fn combined(b: BatchView) -> Seq<TaskView> {
    b.added_tasks + survivors(b.slots)
}

/// Tasks with the given state, in unchanged relative order.
pub open spec fn with_state(tasks: Seq<TaskView>, s: State) -> Seq<TaskView> {
    tasks.filter(|t: TaskView| t.state == s)
}

/// Stable sort by ascending state: with only three states it is the
/// concatenation of the three state groups, each in unchanged relative order.
pub open spec fn sort_by_state(tasks: Seq<TaskView>) -> Seq<TaskView> {
    with_state(tasks, State::Pending) + with_state(tasks, State::WIP) + with_state(tasks, State::Done)
}

/// What a whole batch returns: the changeset and the final ordered listing.
/// An empty batch short-circuits: empty changeset, listing as it was (not
/// re-sorted, nothing rewritten).
pub open spec fn batch_result(
    tasks: Seq<TaskView>,
    edits: Seq<EditView>,
    ids: Seq<Seq<char>>,
) -> (ChangesetView, Seq<TaskView>) {
    if edits.len() == 0 {
        (ChangesetView::empty(), tasks)
    } else {
        let b = batch_run(tasks, edits, ids);
        (b.cs, sort_by_state(combined(b)))
    }
}

/// One step of [`Seq::filter`]: filtering a sequence extended by one element
/// keeps the filtered prefix and appends the element exactly when it matches.
pub(crate) proof fn lemma_filter_push<A>(s: Seq<A>, x: A, p: spec_fn(A) -> bool)
    ensures
        s.push(x).filter(p) == (if p(x) {
            s.filter(p).push(x)
        } else {
            s.filter(p)
        }),
{
    reveal(Seq::filter);
    assert(s.push(x).drop_last() =~= s);
    assert(s.push(x).last() == x);
}

/// A prefix of the intent sequence never needs more fresh identifiers than
/// the whole sequence.
proof fn lemma_count_adds_take_le(s: Seq<EditView>, j: int)
    requires
        0 <= j <= s.len(),
    ensures
        count_adds(s.take(j)) <= count_adds(s),
    decreases s.len(),
{
    if j == s.len() {
        assert(s.take(j) =~= s);
    } else {
        assert(s.drop_last().take(j) =~= s.take(j));
        lemma_count_adds_take_le(s.drop_last(), j);
    }
}

/// Whether one of the collected identifiers is `s`.
fn contains_string(v: &Vec<String>, s: &String) -> (b: bool)
    ensures
        b == v.deep_view().contains(s@),
{
    let mut i: usize = 0;
    while i < v.len()
        invariant
            0 <= i <= v.len(),
            forall|j: int| 0 <= j < i ==> v.deep_view()[j] != s@,
        decreases v.len() - i,
    {
        if v[i].eq(s) {
            proof {
                assert(v.deep_view()[i as int] == s@);
            }
            return true;
        }
        i += 1;
    }
    false
}

/// The tasks of `v` whose state is `s`, in unchanged relative order.
fn filter_state_exec(v: &Vec<Task>, s: State) -> (r: Vec<Task>)
    ensures
        r.deep_view() == with_state(v.deep_view(), s),
{
    let ghost all = v.deep_view();
    let mut r: Vec<Task> = Vec::new();
    let mut i: usize = 0;
    proof {
        assert(all.take(0) =~= Seq::<TaskView>::empty());
        reveal(Seq::filter);
        assert(r.deep_view() =~= with_state(all.take(0), s));
    }
    while i < v.len()
        invariant
            0 <= i <= v.len(),
            all == v.deep_view(),
            r.deep_view() == with_state(all.take(i as int), s),
        decreases v.len() - i,
    {
        proof {
            assert(all.take(i + 1) =~= all.take(i as int).push(all[i as int]));
            lemma_filter_push(all.take(i as int), all[i as int], |t: TaskView| t.state == s);
        }
        if v[i].state == s {
            r.push(v[i].clone());
            proof {
                assert(r.deep_view() =~= with_state(all.take(i as int), s).push(all[i as int]));
            }
        }
        i += 1;
    }
    proof {
        assert(all.take(v.len() as int) =~= all);
    }
    r
}

/// How many fresh identifiers the batch will consume: one per `Add`.
fn count_adds_exec(v: &Vec<Edit>) -> (n: usize)
    ensures
        n as int == count_adds(v.deep_view()),
{
    let ghost all = v.deep_view();
    let mut n: usize = 0;
    let mut i: usize = 0;
    proof {
        assert(all.take(0) =~= Seq::<EditView>::empty());
    }
    while i < v.len()
        invariant
            0 <= i <= v.len(),
            all == v.deep_view(),
            n as int == count_adds(all.take(i as int)),
            n <= i,
        decreases v.len() - i,
    {
        proof {
            assert(all.take(i + 1).drop_last() =~= all.take(i as int));
            assert(all.take(i + 1).last() == all[i as int]);
        }
        let is_add = match &v[i] {
            Edit::Add(_) => true,
            _ => false,
        };
        if is_add {
            n += 1;
        }
        i += 1;
    }
    proof {
        assert(all.take(v.len() as int) =~= all);
    }
    n
}

/// Generates `n` fresh identifiers, each well formed.
fn fresh_ids(n: usize) -> (r: Vec<String>)
    ensures
        r.deep_view().len() == n,
        forall|i: int| 0 <= i < n ==> id_wf(#[trigger] r.deep_view()[i]),
{
    let mut r: Vec<String> = Vec::new();
    let mut i: usize = 0;
    while i < n
        invariant
            0 <= i <= n,
            r.deep_view().len() == i,
            forall|j: int| 0 <= j < i ==> id_wf(#[trigger] r.deep_view()[j]),
        decreases n - i,
    {
        let ghost before = r.deep_view();
        r.push(fresh_id());
        proof {
            assert forall|j: int| 0 <= j < i + 1 implies id_wf(#[trigger] r.deep_view()[j]) by {
                if j < i {
                    assert(r.deep_view()[j] == before[j]);
                }
            }
        }
        i += 1;
    }
    r
}

impl Edits {
    /// Applies the batch to the given pre-batch listing, with the fresh
    /// identifiers for `Add` intents supplied explicitly (one per `Add`, used
    /// left to right). Returns the changeset and the final ordered listing;
    /// the caller persists the surviving tasks, deletes the removed records,
    /// and rewrites the order index with the listing's identifiers.
    pub fn apply(&self, tasks: Vec<Task>, ids: Vec<String>) -> (r: (Changeset, Vec<Task>))
        requires
            ids.deep_view().len() == count_adds(self@),
        ensures
            r.0@ == batch_result(tasks.deep_view(), self@, ids.deep_view()).0,
            r.1.deep_view() == batch_result(tasks.deep_view(), self@, ids.deep_view()).1,
    {
        let ghost origv = tasks.deep_view();
        let ghost ev = self@;
        let ghost idsv = ids.deep_view();
        let edits = self.intents();
        let mut cs = Changeset::default();
        if edits.len() == 0 {
            return (cs, tasks);
        }

        // the positional snapshot: every pre-batch task in its slot
        let mut slots: Vec<Option<Task>> = Vec::new();
        let mut k: usize = 0;
        proof {
            assert(slots.deep_view() =~= occupied(origv.take(0)));
        }
        while k < tasks.len()
            invariant
                0 <= k <= tasks.len(),
                tasks.deep_view() == origv,
                slots.deep_view() == occupied(origv.take(k as int)),
            decreases tasks.len() - k,
        {
            let t = tasks[k].clone();
            let ghost prevraw = slots@;
            let ghost prev = slots.deep_view();
            slots.push(Some(t));
            proof {
                assert(prev.len() == prevraw.len());
                assert(prev.len() == occupied(origv.take(k as int)).len());
                assert(occupied(origv.take(k as int)).len() == origv.take(k as int).len());
                assert(prevraw.len() == k);
                assert(slots@ == prevraw.push(Some(t)));
                assert(slots@.len() == k + 1);
                assert forall|j: int| 0 <= j < k + 1 implies slots.deep_view()[j] == occupied(
                    origv.take(k + 1),
                )[j] by {
                    assert(occupied(origv.take(k + 1))[j] == Some(origv.take(k + 1)[j]));
                    assert(origv.take(k + 1)[j] == origv[j]);
                    if j < k {
                        assert(slots@[j] == prevraw[j]);
                        assert(slots.deep_view()[j] == slots@[j].deep_view());
                        assert(prev[j] == prevraw[j].deep_view());
                        assert(prev[j] == occupied(origv.take(k as int))[j]);
                        assert(occupied(origv.take(k as int))[j] == Some(origv.take(k as int)[j]));
                        assert(origv.take(k as int)[j] == origv[j]);
                    } else {
                        assert(slots@[j] == Some(t));
                        assert(slots.deep_view()[j] == slots@[j].deep_view());
                    }
                }
                assert(slots.deep_view() =~= occupied(origv.take(k + 1)));
            }
            k += 1;
        }
        proof {
            assert(origv.take(tasks.len() as int) =~= origv);
            assert(batch_run(origv, ev.take(0), idsv) == batch_init(origv));
        }

        let mut added_tasks: Vec<Task> = Vec::new();
        let mut next_id: usize = 0;
        let mut i: usize = 0;
        proof {
            assert(added_tasks.deep_view() =~= Seq::<TaskView>::empty());
        }
        while i < edits.len()
            invariant
                0 <= i <= edits.len(),
                edits.deep_view() == ev,
                ids.deep_view() == idsv,
                idsv.len() == count_adds(ev),
                ({
                    let b = batch_run(origv, ev.take(i as int), idsv);
                    &&& slots.deep_view() == b.slots
                    &&& added_tasks.deep_view() == b.added_tasks
                    &&& cs@ == b.cs
                    &&& next_id as int == b.ids_used
                    &&& b.ids_used == count_adds(ev.take(i as int))
                }),
            decreases edits.len() - i,
        {
            let ghost b = batch_run(origv, ev.take(i as int), idsv);
            proof {
                assert(ev.take(i + 1).drop_last() =~= ev.take(i as int));
                assert(ev.take(i + 1).last() == ev[i as int]);
                assert(batch_run(origv, ev.take(i + 1), idsv) == batch_step(
                    b,
                    ev[i as int],
                    idsv,
                ));
            }
            let e = &edits[i];
            match e {
                Edit::Add(text) => {
                    proof {
                        lemma_count_adds_take_le(ev, i + 1);
                    }
                    let id = ids[next_id].clone();
                    let t = Task::with_id(id, text.clone());
                    cs.added.push(t.id.clone());
                    added_tasks.push(t);
                    next_id += 1;
                    proof {
                        let b2 = batch_step(b, ev[i as int], idsv);
                        assert(added_tasks.deep_view() =~= b2.added_tasks);
                        assert(cs@ =~= b2.cs);
                    }
                },
                Edit::Remove(at_ref) => {
                    let at = *at_ref;
                    if at < slots.len() {
                        if slots[at].is_some() {
                            let t = slots[at].as_ref().unwrap().clone();
                            slots.set(at, None);
                            cs.deleted.push(t);
                            proof {
                                let b2 = batch_step(b, ev[i as int], idsv);
                                assert(slots.deep_view() =~= b2.slots);
                                assert(cs@ =~= b2.cs);
                            }
                        }
                    }
                },
                Edit::Update(at_ref, st_ref) => {
                    let at = *at_ref;
                    let st = *st_ref;
                    if at < slots.len() {
                        if slots[at].is_some() {
                            let mut t = slots[at].as_ref().unwrap().clone();
                            if !contains_string(&cs.updated, &t.id) {
                                let id = t.id.clone();
                                cs.updated.push(id);
                            }
                            t.state = st;
                            slots.set(at, Some(t));
                            proof {
                                let b2 = batch_step(b, ev[i as int], idsv);
                                assert(slots.deep_view() =~= b2.slots);
                                assert(cs@ =~= b2.cs);
                            }
                        }
                    }
                },
            }
            i += 1;
        }
        proof {
            assert(ev.take(edits.len() as int) =~= ev);
        }
        let ghost bf = batch_run(origv, ev, idsv);

        // surviving snapshot slots follow the newly added tasks
        let mut added_tasks = added_tasks;
        let mut k: usize = 0;
        proof {
            assert(bf.slots.take(0) =~= Seq::<Option<TaskView>>::empty());
            assert(added_tasks.deep_view() =~= bf.added_tasks + survivors(bf.slots.take(0)));
        }
        while k < slots.len()
            invariant
                0 <= k <= slots.len(),
                slots.deep_view() == bf.slots,
                added_tasks.deep_view() == bf.added_tasks + survivors(bf.slots.take(k as int)),
            decreases slots.len() - k,
        {
            proof {
                assert(bf.slots.take(k + 1) =~= bf.slots.take(k as int).push(
                    bf.slots[k as int],
                ));
                lemma_survivors_push(bf.slots.take(k as int), bf.slots[k as int]);
            }
            if slots[k].is_some() {
                let t = slots[k].as_ref().unwrap().clone();
                let ghost prevraw = added_tasks@;
                let ghost prev = added_tasks.deep_view();
                added_tasks.push(t);
                proof {
                    let rhs = bf.added_tasks + survivors(bf.slots.take(k + 1));
                    assert(survivors(bf.slots.take(k + 1)) == survivors(
                        bf.slots.take(k as int),
                    ).push(bf.slots[k as int]->0));
                    assert(prev.len() == prevraw.len());
                    assert(prev.len() == bf.added_tasks.len() + survivors(
                        bf.slots.take(k as int),
                    ).len());
                    assert(survivors(bf.slots.take(k + 1)).len() == survivors(
                        bf.slots.take(k as int),
                    ).len() + 1);
                    assert(added_tasks@ == prevraw.push(t));
                    assert forall|j: int| 0 <= j < prevraw.len() + 1 implies
                        added_tasks.deep_view()[j] == rhs[j] by {
                        if j < prevraw.len() {
                            assert(added_tasks@[j] == prevraw[j]);
                            assert(added_tasks.deep_view()[j] == added_tasks@[j].deep_view());
                            assert(prev[j] == prevraw[j].deep_view());
                            assert(prev[j] == (bf.added_tasks + survivors(
                                bf.slots.take(k as int),
                            ))[j]);
                        } else {
                            assert(added_tasks@[j] == t);
                            assert(added_tasks.deep_view()[j] == t@);
                            assert(rhs[j] == survivors(bf.slots.take(k + 1))[j - bf.added_tasks.len()]);
                            assert(t@ == bf.slots[k as int]->0);
                        }
                    }
                    assert(added_tasks.deep_view() =~= rhs);
                }
            }
            k += 1;
        }
        proof {
            assert(bf.slots.take(slots.len() as int) =~= bf.slots);
            assert(added_tasks.deep_view() == combined(bf));
        }

        // stable sort by ascending state: the three state groups in order
        let pending = filter_state_exec(&added_tasks, State::Pending);
        let mut wip = filter_state_exec(&added_tasks, State::WIP);
        let mut done = filter_state_exec(&added_tasks, State::Done);
        let mut out = pending;
        out.append(&mut wip);
        out.append(&mut done);
        proof {
            assert(out.deep_view() =~= sort_by_state(combined(bf)));
        }
        (cs, out)
    }

    /// Applies the batch to the given pre-batch listing, generating a fresh
    /// identifier for each `Add` intent. The identifiers are random, so the
    /// contract promises of them only that they are well formed; everything
    /// else about the result is fixed by [`batch_result`].
    pub fn apply_batch(&self, tasks: Vec<Task>) -> (r: (Changeset, Vec<Task>))
        ensures
            exists|ids: Seq<Seq<char>>|
                #![auto]
                ids.len() == count_adds(self@) && (forall|i: int|
                    0 <= i < ids.len() ==> id_wf(#[trigger] ids[i]))
                    && r.0@ == batch_result(tasks.deep_view(), self@, ids).0
                    && r.1.deep_view() == batch_result(tasks.deep_view(), self@, ids).1,
    {
        let n = count_adds_exec(self.intents());
        let ids = fresh_ids(n);
        let ghost idsv = ids.deep_view();
        let r = self.apply(tasks, ids);
        proof {
            assert(idsv.len() == count_adds(self@));
        }
        r
    }
}

} // verus!
