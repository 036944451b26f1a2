//! The task record store, modelled in memory: one record per identifier,
//! saved whole, overwritten on re-save, removed on delete. The surrounding
//! program mirrors every operation done here onto the task files on disk;
//! the contracts below are the behaviour it must mirror.

use vstd::prelude::*;

use crate::task::{Task, TaskView};
use crate::Error;

verus! {

/// The record stored under an identifier, if any: the first match in
/// insertion order (under the store's invariant there is at most one).
pub open spec fn find_id(recs: Seq<TaskView>, id: Seq<char>) -> Option<TaskView>
    decreases recs.len(),
{
    if recs.len() == 0 {
        None
    } else if recs.first().id == id {
        Some(recs.first())
    } else {
        find_id(recs.drop_first(), id)
    }
}

/// Saving a record: the first record with the same identifier is overwritten
/// in place; a new identifier's record is appended.
pub open spec fn spec_save(recs: Seq<TaskView>, t: TaskView) -> Seq<TaskView>
    decreases recs.len(),
{
    if recs.len() == 0 {
        seq![t]
    } else if recs.first().id == t.id {
        seq![t] + recs.drop_first()
    } else {
        seq![recs.first()] + spec_save(recs.drop_first(), t)
    }
}

/// Deleting a record: the first record with the identifier is removed; a
/// missing identifier changes nothing, so deleting twice is harmless.
pub open spec fn spec_delete(recs: Seq<TaskView>, id: Seq<char>) -> Seq<TaskView>
    decreases recs.len(),
{
    if recs.len() == 0 {
        recs
    } else if recs.first().id == id {
        recs.drop_first()
    } else {
        seq![recs.first()] + spec_delete(recs.drop_first(), id)
    }
}

/// Round trip: after saving a task, looking its identifier up finds exactly
/// the task that was saved, every field intact.
pub proof fn lemma_save_load(recs: Seq<TaskView>, t: TaskView)
    ensures
        find_id(spec_save(recs, t), t.id) == Some(t),
    decreases recs.len(),
{
    if recs.len() == 0 {
        assert(spec_save(recs, t).first() == t);
    } else if recs.first().id == t.id {
        assert(spec_save(recs, t).first() == t);
    } else {
        lemma_save_load(recs.drop_first(), t);
        assert(spec_save(recs, t).first() == recs.first());
        assert(spec_save(recs, t).drop_first() =~= spec_save(recs.drop_first(), t));
    }
}

/// Saving one record never touches any other identifier's record.
pub proof fn lemma_save_other(recs: Seq<TaskView>, t: TaskView, id: Seq<char>)
    requires
        id != t.id,
    ensures
        find_id(spec_save(recs, t), id) == find_id(recs, id),
    decreases recs.len(),
{
    reveal_with_fuel(find_id, 3);
    if recs.len() == 0 {
        assert(spec_save(recs, t).first() == t);
        assert(spec_save(recs, t).drop_first() =~= Seq::<TaskView>::empty());
    } else if recs.first().id == t.id {
        assert(spec_save(recs, t).first() == t);
        assert(spec_save(recs, t).drop_first() =~= recs.drop_first());
    } else {
        lemma_save_other(recs.drop_first(), t, id);
        assert(spec_save(recs, t).first() == recs.first());
        assert(spec_save(recs, t).drop_first() =~= spec_save(recs.drop_first(), t));
    }
}

/// A found record carries the identifier it was looked up under.
pub proof fn lemma_find_id_matches(recs: Seq<TaskView>, id: Seq<char>)
    ensures
        find_id(recs, id) matches Some(t) ==> t.id == id,
    decreases recs.len(),
{
    if recs.len() > 0 {
        lemma_find_id_matches(recs.drop_first(), id);
    }
}

/// An identifier without a record is never found.
pub proof fn lemma_find_id_absent(recs: Seq<TaskView>, id: Seq<char>)
    requires
        forall|j: int| 0 <= j < recs.len() ==> (#[trigger] recs[j]).id != id,
    ensures
        find_id(recs, id) is None,
    decreases recs.len(),
{
    if recs.len() > 0 {
        lemma_find_id_absent(recs.drop_first(), id);
    }
}

/// Deleting an identifier really clears it: with one record per identifier,
/// nothing is found under it afterwards.
pub proof fn lemma_delete_clears(recs: Seq<TaskView>, id: Seq<char>)
    requires
        crate::laws::ids_of(recs).no_duplicates(),
    ensures
        find_id(spec_delete(recs, id), id) is None,
    decreases recs.len(),
{
    reveal_with_fuel(find_id, 3);
    if recs.len() == 0 {
    } else if recs.first().id == id {
        assert forall|j: int| 0 <= j < recs.drop_first().len() implies (#[trigger] recs.drop_first()[j]).id != id by {
            assert(crate::laws::ids_of(recs)[j + 1] == recs[j + 1].id);
            assert(crate::laws::ids_of(recs)[0] == recs[0].id);
        }
        lemma_find_id_absent(recs.drop_first(), id);
    } else {
        assert forall|p: int, q: int|
            0 <= p < q < crate::laws::ids_of(recs.drop_first()).len() implies crate::laws::ids_of(
            recs.drop_first(),
        )[p] != crate::laws::ids_of(recs.drop_first())[q] by {
            assert(crate::laws::ids_of(recs.drop_first())[p] == crate::laws::ids_of(recs)[p + 1]);
            assert(crate::laws::ids_of(recs.drop_first())[q] == crate::laws::ids_of(recs)[q + 1]);
        }
        lemma_delete_clears(recs.drop_first(), id);
        assert(spec_delete(recs, id).first() == recs.first());
        assert(spec_delete(recs, id).drop_first() =~= spec_delete(recs.drop_first(), id));
    }
}

/// Deleting one identifier never touches any other identifier's record.
pub proof fn lemma_delete_other(recs: Seq<TaskView>, id2: Seq<char>, id: Seq<char>)
    requires
        id != id2,
    ensures
        find_id(spec_delete(recs, id2), id) == find_id(recs, id),
    decreases recs.len(),
{
    reveal_with_fuel(find_id, 3);
    if recs.len() == 0 {
    } else if recs.first().id == id2 {
        assert(spec_delete(recs, id2) == recs.drop_first());
    } else {
        lemma_delete_other(recs.drop_first(), id2, id);
        assert(spec_delete(recs, id2).first() == recs.first());
        assert(spec_delete(recs, id2).drop_first() =~= spec_delete(recs.drop_first(), id2));
    }
}

/// The in-memory record store.
pub struct Store {
    tasks: Vec<Task>,
}

impl View for Store {
    type V = Seq<TaskView>;

    closed spec fn view(&self) -> Seq<TaskView> {
        self.tasks.deep_view()
    }
}

impl Store {
    /// The store's invariant: no identifier has two records.
    pub open spec fn wf(self) -> bool {
        crate::laws::ids_of(self@).no_duplicates()
    }

    /// An empty store.
    pub fn new() -> (s: Store)
        ensures
            s@ == Seq::<TaskView>::empty(),
            s.wf(),
    {
        let s = Store { tasks: Vec::new() };
        proof {
            assert(s@ =~= Seq::<TaskView>::empty());
            assert(crate::laws::ids_of(s@).len() == 0);
        }
        s
    }

    /// Loads the record stored under `id`. Fails with `NotFound`, and only
    /// with it, exactly when no record has that identifier.
    pub fn load(&self, id: &String) -> (r: Result<Task, Error>)
        ensures
            match find_id(self@, id@) {
                Some(t) => r matches Ok(got) && got@ == t,
                None => r == Err::<Task, Error>(Error::NotFound),
            },
    {
        let ghost all = self@;
        let mut i: usize = 0;
        proof {
            assert(all.skip(0) =~= all);
        }
        while i < self.tasks.len()
            invariant
                0 <= i <= self.tasks.len(),
                all == self@,
                self@ == self.tasks.deep_view(),
                find_id(all.skip(i as int), id@) == find_id(all, id@),
            decreases self.tasks.len() - i,
        {
            proof {
                assert(all.skip(i as int).first() == all[i as int]);
                assert(all.skip(i as int).drop_first() =~= all.skip(i + 1));
            }
            if self.tasks[i].id.eq(id) {
                let t = self.tasks[i].clone();
                proof {
                    assert(find_id(all.skip(i as int), id@) == Some(all[i as int]));
                }
                return Ok(t);
            }
            i += 1;
        }
        proof {
            assert(all.skip(self.tasks.len() as int) =~= Seq::<TaskView>::empty());
        }
        Err(Error::NotFound)
    }

    /// Persists the record under its own identifier, overwriting any prior
    /// version whole.
    pub fn save(&mut self, t: &Task)
        ensures
            final(self)@ == spec_save(old(self)@, t@),
            old(self).wf() ==> final(self).wf(),
    {
        let ghost all = self@;
        let mut i: usize = 0;
        while i < self.tasks.len()
            invariant
                0 <= i <= self.tasks.len(),
                all == self@,
                all == old(self)@,
                self@ == self.tasks.deep_view(),
                forall|j: int| 0 <= j < i ==> (#[trigger] all[j]).id != t@.id,
            decreases self.tasks.len() - i,
        {
            if self.tasks[i].id.eq(&t.id) {
                let ghost prevraw = self.tasks@;
                let ghost prev = self.tasks.deep_view();
                proof {
                    assert(all[i as int] == prevraw[i as int].deep_view());
                    assert(all[i as int].id == t@.id);
                }
                self.tasks.set(i, t.clone());
                proof {
                    assert forall|j: int| 0 <= j < all.len() implies self.tasks.deep_view()[j]
                        == all.update(i as int, t@)[j] by {
                        assert(self.tasks.deep_view()[j] == self.tasks@[j].deep_view());
                        if j != i {
                            assert(self.tasks@[j] == prevraw[j]);
                            assert(prev[j] == prevraw[j].deep_view());
                            assert(all[j] == prev[j]);
                        }
                    }
                    assert(self.tasks.deep_view() =~= all.update(i as int, t@));
                    lemma_save_at(all, t@, i as int);
                    if old(self).wf() {
                        let pids = crate::laws::ids_of(all);
                        let nids = crate::laws::ids_of(self@);
                        assert forall|j: int| 0 <= j < nids.len() implies nids[j] == pids[j] by {
                            assert(nids[j] == self@[j].id);
                            assert(pids[j] == all[j].id);
                            if j != i {
                                assert(self@[j] == all[j]);
                            } else {
                                assert(self@[j] == t@);
                            }
                        }
                        assert(nids =~= pids);
                    }
                }
                return ;
            }
            i += 1;
        }
        let ghost prevraw = self.tasks@;
        let ghost prev = self.tasks.deep_view();
        self.tasks.push(t.clone());
        proof {
            assert forall|j: int| 0 <= j < all.len() + 1 implies self.tasks.deep_view()[j]
                == all.push(t@)[j] by {
                assert(self.tasks.deep_view()[j] == self.tasks@[j].deep_view());
                if j < all.len() {
                    assert(self.tasks@[j] == prevraw[j]);
                    assert(prev[j] == prevraw[j].deep_view());
                    assert(all[j] == prev[j]);
                }
            }
            assert(self.tasks.deep_view() =~= all.push(t@));
            lemma_save_append(all, t@);
            if old(self).wf() {
                let pids = crate::laws::ids_of(all);
                let nids = crate::laws::ids_of(self@);
                assert(nids =~= pids.push(t@.id));
                assert forall|p: int, q: int| 0 <= p < q < nids.len() implies nids[p]
                    != nids[q] by {
                    if q < pids.len() {
                        assert(nids[p] == pids[p] && nids[q] == pids[q]);
                    } else {
                        assert(nids[p] == pids[p] && nids[q] == t@.id);
                        assert(all[p].id != t@.id);
                    }
                }
            }
        }
    }

    /// Deletes the record under `id`; a missing record is a harmless no-op.
    pub fn delete(&mut self, id: &String)
        ensures
            final(self)@ == spec_delete(old(self)@, id@),
            old(self).wf() ==> final(self).wf(),
    {
        let ghost all = self@;
        let mut i: usize = 0;
        while i < self.tasks.len()
            invariant
                0 <= i <= self.tasks.len(),
                all == self@,
                all == old(self)@,
                self@ == self.tasks.deep_view(),
                forall|j: int| 0 <= j < i ==> (#[trigger] all[j]).id != id@,
            decreases self.tasks.len() - i,
        {
            if self.tasks[i].id.eq(id) {
                let ghost prevraw = self.tasks@;
                let ghost prev = self.tasks.deep_view();
                proof {
                    assert(all[i as int] == prevraw[i as int].deep_view());
                    assert(all[i as int].id == id@);
                }
                self.tasks.remove(i);
                proof {
                    assert(self.tasks@ == prevraw.remove(i as int));
                    assert forall|j: int| 0 <= j < all.len() - 1 implies self.tasks.deep_view()[j]
                        == all.remove(i as int)[j] by {
                        assert(self.tasks.deep_view()[j] == self.tasks@[j].deep_view());
                        if j < i {
                            assert(self.tasks@[j] == prevraw[j]);
                            assert(prev[j] == prevraw[j].deep_view());
                            assert(all[j] == prev[j]);
                        } else {
                            assert(self.tasks@[j] == prevraw[j + 1]);
                            assert(prev[j + 1] == prevraw[j + 1].deep_view());
                            assert(all[j + 1] == prev[j + 1]);
                        }
                    }
                    assert(self.tasks.deep_view() =~= all.remove(i as int));
                    lemma_delete_at(all, id@, i as int);
                    if old(self).wf() {
                        let pids = crate::laws::ids_of(all);
                        let nids = crate::laws::ids_of(self@);
                        assert forall|j: int| 0 <= j < nids.len() implies nids[j] == (if j < i {
                            pids[j]
                        } else {
                            pids[j + 1]
                        }) by {
                            assert(nids[j] == self@[j].id);
                            if j < i {
                                assert(self@[j] == all[j]);
                                assert(pids[j] == all[j].id);
                            } else {
                                assert(self@[j] == all[j + 1]);
                                assert(pids[j + 1] == all[j + 1].id);
                            }
                        }
                        assert forall|p: int, q: int| 0 <= p < q < nids.len() implies nids[p]
                            != nids[q] by {
                            let p0: int = if p < i { p } else { p + 1 };
                            let q0: int = if q < i { q } else { q + 1 };
                            assert(nids[p] == pids[p0] && nids[q] == pids[q0]);
                        }
                    }
                }
                return ;
            }
            i += 1;
        }
        proof {
            lemma_delete_absent(all, id@);
        }
    }
}

/// Saving over the first matching record is an in-place overwrite.
proof fn lemma_save_at(recs: Seq<TaskView>, t: TaskView, i: int)
    requires
        0 <= i < recs.len(),
        recs[i].id == t.id,
        forall|j: int| 0 <= j < i ==> (#[trigger] recs[j]).id != t.id,
    ensures
        spec_save(recs, t) == recs.update(i, t),
    decreases i,
{
    if i == 0 {
        assert(spec_save(recs, t) =~= recs.update(0, t));
    } else {
        assert(recs.drop_first()[i - 1].id == t.id);
        assert(forall|j: int|
            0 <= j < i - 1 ==> (#[trigger] recs.drop_first()[j]).id != t.id);
        lemma_save_at(recs.drop_first(), t, i - 1);
        assert(spec_save(recs, t) =~= recs.update(i, t));
    }
}

/// Saving an identifier the store does not hold appends its record.
proof fn lemma_save_append(recs: Seq<TaskView>, t: TaskView)
    requires
        forall|j: int| 0 <= j < recs.len() ==> (#[trigger] recs[j]).id != t.id,
    ensures
        spec_save(recs, t) == recs.push(t),
    decreases recs.len(),
{
    if recs.len() == 0 {
        assert(spec_save(recs, t) =~= recs.push(t));
    } else {
        lemma_save_append(recs.drop_first(), t);
        assert(spec_save(recs, t) =~= recs.push(t));
    }
}

/// Deleting the first matching record removes exactly it.
proof fn lemma_delete_at(recs: Seq<TaskView>, id: Seq<char>, i: int)
    requires
        0 <= i < recs.len(),
        recs[i].id == id,
        forall|j: int| 0 <= j < i ==> (#[trigger] recs[j]).id != id,
    ensures
        spec_delete(recs, id) == recs.remove(i),
    decreases i,
{
    if i == 0 {
        assert(spec_delete(recs, id) =~= recs.remove(0));
    } else {
        assert(recs.drop_first()[i - 1].id == id);
        assert(forall|j: int|
            0 <= j < i - 1 ==> (#[trigger] recs.drop_first()[j]).id != id);
        lemma_delete_at(recs.drop_first(), id, i - 1);
        assert(spec_delete(recs, id) =~= recs.remove(i));
    }
}

/// Deleting an identifier the store does not hold changes nothing.
proof fn lemma_delete_absent(recs: Seq<TaskView>, id: Seq<char>)
    requires
        forall|j: int| 0 <= j < recs.len() ==> (#[trigger] recs[j]).id != id,
    ensures
        spec_delete(recs, id) == recs,
    decreases recs.len(),
{
    if recs.len() != 0 {
        lemma_delete_absent(recs.drop_first(), id);
        assert(spec_delete(recs, id) =~= recs);
    }
}

} // verus!
