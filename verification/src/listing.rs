//! The task lister and the position-based single-task commands. A listing is
//! the ordered in-memory collection that the order index describes: each
//! identifier resolved through the record store, in index order.

use vstd::prelude::*;

use crate::edits::{Changeset, Edits};
use crate::engine::{batch_result, count_adds};
use crate::laws::ids_of;
use crate::order_index::listing_ids;
use crate::store::{find_id, lemma_find_id_matches, lemma_save_load, lemma_save_other, Store};
use crate::task::{State, Task, TaskView};
use crate::Error;

verus! {

/// Whether every identifier of the order index has a record: the condition
/// under which listing succeeds.
pub open spec fn listing_ok(recs: Seq<TaskView>, ids: Seq<Seq<char>>) -> bool {
    forall|i: int| 0 <= i < ids.len() ==> find_id(recs, #[trigger] ids[i]) is Some
}

/// The listing an order index describes: each identifier's record, in index
/// order. Meaningful when `listing_ok` holds.
pub open spec fn spec_listing(recs: Seq<TaskView>, ids: Seq<Seq<char>>) -> Seq<TaskView> {
    Seq::new(ids.len(), |i: int| find_id(recs, ids[i])->0)
}

/// Resolves an order index against the store, in index order. Succeeds, with
/// one task per index entry, exactly when every listed identifier has a
/// record; a dangling entry fails the whole listing with `NotFound` — it
/// means the index and the store diverged.
pub fn list_tasks(store: &Store, index: &Vec<String>) -> (r: Result<Vec<Task>, Error>)
    ensures
        (r matches Ok(ts)) <==> listing_ok(store@, index.deep_view()),
        r matches Ok(ts) ==> ts.deep_view() == spec_listing(store@, index.deep_view()),
        r matches Err(e) ==> e == Error::NotFound,
{
    let ghost ids = index.deep_view();
    let mut out: Vec<Task> = Vec::new();
    let mut i: usize = 0;
    while i < index.len()
        invariant
            0 <= i <= index.len(),
            ids == index.deep_view(),
            out.deep_view().len() == i,
            forall|j: int| 0 <= j < i ==> find_id(store@, #[trigger] ids[j]) is Some,
            forall|j: int|
                0 <= j < i ==> #[trigger] out.deep_view()[j] == find_id(store@, ids[j])->0,
        decreases index.len() - i,
    {
        match store.load(&index[i]) {
            Ok(t) => {
                let ghost prev = out.deep_view();
                out.push(t);
                proof {
                    assert forall|j: int| 0 <= j < i + 1 implies #[trigger] out.deep_view()[j]
                        == find_id(store@, ids[j])->0 by {
                        if j < i {
                            assert(out.deep_view()[j] == prev[j]);
                        }
                    }
                }
            },
            Err(_) => {
                proof {
                    assert(find_id(store@, ids[i as int]) is None);
                }
                return Err(Error::NotFound);
            },
        }
        i += 1;
    }
    proof {
        assert(out.deep_view() =~= spec_listing(store@, ids));
    }
    Ok(out)
}

/// The unique-identifier discipline of the data model: each identifier
/// stands in the order index at most once, and the supplied fresh
/// identifiers are pairwise distinct and not yet listed. Randomly generated
/// identifiers cannot be proved to satisfy this, so the clauses that need it
/// hold under it as a hypothesis.
pub open spec fn ids_fresh(index_ids: Seq<Seq<char>>, fresh: Seq<Seq<char>>) -> bool {
    &&& index_ids.no_duplicates()
    &&& fresh.no_duplicates()
    &&& forall|i: int| 0 <= i < fresh.len() ==> !index_ids.contains(#[trigger] fresh[i])
}

/// One whole batch against the store and its order index: load the current
/// listing, apply the intents, delete the removed records, persist every
/// surviving task, and rewrite the index with the final order. An empty
/// batch reads but writes nothing. On success the rewritten index resolves
/// fully against the store, under the unique-identifier discipline it
/// resolves to exactly the returned listing (so every updated state and
/// added task is persisted as returned) and lists each identifier once, and
/// removed records whose identifier does not survive are gone from the
/// store. A dangling entry in the pre-batch index fails the whole batch
/// with `NotFound` before anything is written.
pub fn run_batch(store: &mut Store, index: &mut Vec<String>, edits: &Edits, ids: Vec<String>) -> (r:
    Result<(Changeset, Vec<Task>), Error>)
    requires
        ids.deep_view().len() == count_adds(edits@),
    ensures
        (r matches Ok(p)) <==> listing_ok(old(store)@, old(index).deep_view()),
        r matches Err(e) ==> e == Error::NotFound && final(store)@ == old(store)@
            && final(index)@ == old(index)@,
        r matches Ok(p) ==> ({
            let pre = spec_listing(old(store)@, old(index).deep_view());
            let br = batch_result(pre, edits@, ids.deep_view());
            &&& p.0@ == br.0
            &&& p.1.deep_view() == br.1
            &&& final(index).deep_view() == ids_of(br.1)
            &&& (old(store).wf() ==> final(store).wf())
            &&& listing_ok(final(store)@, final(index).deep_view())
            &&& (ids_fresh(old(index).deep_view(), ids.deep_view()) ==> {
                &&& spec_listing(final(store)@, final(index).deep_view()) == br.1
                &&& final(index).deep_view().no_duplicates()
            })
            &&& (old(store).wf() ==> (forall|id: Seq<char>|
                ids_of(br.0.deleted).contains(id) && !ids_of(br.1).contains(id)
                    ==> find_id(final(store)@, id) is None))
            &&& (edits@.len() == 0 ==> final(store)@ == old(store)@
                && final(index)@ == old(index)@)
        }),
{
    let ghost recs0 = store@;
    let ghost prev_ids = index.deep_view();
    let ghost idsv = ids.deep_view();
    let ghost ev = edits@;
    let pre = match list_tasks(store, index) {
        Ok(ts) => ts,
        Err(_) => {
            return Err(Error::NotFound);
        },
    };
    let ghost prev = pre.deep_view();
    proof {
        assert forall|i: int| 0 <= i < prev_ids.len() implies #[trigger] ids_of(prev)[i]
            == prev_ids[i] by {
            lemma_find_id_matches(recs0, prev_ids[i]);
        }
        assert(ids_of(prev) =~= prev_ids);
    }
    let is_empty = edits.intents().is_empty();
    let (cs, out) = edits.apply(pre, ids);
    let ghost outv = out.deep_view();
    let ghost delv = cs.deleted.deep_view();
    if is_empty {
        proof {
            assert(ids_of(crate::edits::ChangesetView::empty().deleted).len() == 0);
        }
        return Ok((cs, out));
    }
    proof {
        if ids_fresh(prev_ids, idsv) {
            crate::laws::lemma_order_invariant(prev, ev, idsv);
            assert(ids_of(outv).no_duplicates());
        }
    }
    // the removed records go first, as they fell out during the intent pass;
    // then every task of the final listing is persisted whole
    let mut i: usize = 0;
    while i < cs.deleted.len()
        invariant
            0 <= i <= cs.deleted.len(),
            delv == cs.deleted.deep_view(),
            old(store).wf() ==> store.wf(),
            old(store).wf() ==> (forall|k: int|
                0 <= k < i ==> find_id(store@, (#[trigger] delv[k]).id) is None),
        decreases cs.deleted.len() - i,
    {
        let ghost recs = store@;
        store.delete(&cs.deleted[i].id);
        proof {
            assert(delv[i as int] == cs.deleted@[i as int].deep_view());
            if old(store).wf() {
                crate::store::lemma_delete_clears(recs, delv[i as int].id);
                assert forall|k: int| 0 <= k < i + 1 implies find_id(
                    store@,
                    (#[trigger] delv[k]).id,
                ) is None by {
                    if k < i && delv[k].id != delv[i as int].id {
                        crate::store::lemma_delete_other(recs, delv[i as int].id, delv[k].id);
                    }
                }
            }
        }
        i += 1;
    }
    let mut j: usize = 0;
    while j < out.len()
        invariant
            0 <= j <= out.len(),
            outv == out.deep_view(),
            delv == cs.deleted.deep_view(),
            ids_fresh(prev_ids, idsv) ==> ids_of(outv).no_duplicates(),
            old(store).wf() ==> store.wf(),
            forall|k: int| 0 <= k < j ==> find_id(store@, (#[trigger] outv[k]).id) is Some,
            ids_fresh(prev_ids, idsv) ==> (forall|k: int|
                0 <= k < j ==> find_id(store@, (#[trigger] outv[k]).id) == Some(outv[k])),
            old(store).wf() ==> (forall|k: int|
                0 <= k < delv.len() && !ids_of(outv).contains((#[trigger] delv[k]).id)
                    ==> find_id(store@, delv[k].id) is None),
        decreases out.len() - j,
    {
        let ghost recs = store@;
        store.save(&out[j]);
        proof {
            assert(outv[j as int] == out@[j as int].deep_view());
            lemma_save_load(recs, outv[j as int]);
            assert forall|k: int| 0 <= k < j + 1 implies find_id(
                store@,
                (#[trigger] outv[k]).id,
            ) is Some by {
                if outv[k].id != outv[j as int].id {
                    lemma_save_other(recs, outv[j as int], outv[k].id);
                }
            }
            if ids_fresh(prev_ids, idsv) {
                assert forall|k: int| 0 <= k < j + 1 implies find_id(
                    store@,
                    (#[trigger] outv[k]).id,
                ) == Some(outv[k]) by {
                    if k < j {
                        assert(ids_of(outv)[k] == outv[k].id);
                        assert(ids_of(outv)[j as int] == outv[j as int].id);
                        assert(outv[k].id != outv[j as int].id);
                        lemma_save_other(recs, outv[j as int], outv[k].id);
                    }
                }
            }
            if old(store).wf() {
                assert forall|k: int|
                    0 <= k < delv.len() && !ids_of(outv).contains((#[trigger] delv[k]).id)
                        implies find_id(store@, delv[k].id) is None by {
                    assert(ids_of(outv)[j as int] == outv[j as int].id);
                    assert(ids_of(outv).contains(outv[j as int].id));
                    lemma_save_other(recs, outv[j as int], delv[k].id);
                }
            }
        }
        j += 1;
    }
    let new_index = listing_ids(&out);
    *index = new_index;
    proof {
        assert forall|k: int| 0 <= k < index.deep_view().len() implies find_id(
            store@,
            #[trigger] index.deep_view()[k],
        ) is Some by {
            assert(index.deep_view()[k] == outv[k].id);
        }
        if ids_fresh(prev_ids, idsv) {
            assert forall|k: int| 0 <= k < index.deep_view().len() implies spec_listing(
                store@,
                index.deep_view(),
            )[k] == outv[k] by {
                assert(index.deep_view()[k] == outv[k].id);
                assert(find_id(store@, outv[k].id) == Some(outv[k]));
            }
            assert(spec_listing(store@, index.deep_view()) =~= outv);
            assert(index.deep_view() =~= ids_of(outv));
        }
        if old(store).wf() {
            assert forall|id: Seq<char>|
                ids_of(delv).contains(id) && !ids_of(outv).contains(id) implies find_id(
                store@,
                id,
            ) is None by {
                let k = choose|k: int| 0 <= k < ids_of(delv).len() && ids_of(delv)[k] == id;
                assert(delv[k].id == id);
            }
        }
    }
    Ok((cs, out))
}

/// The task at position `n` of the listing (0-based), if the listing is that
/// long: the bounds-checked selection behind showing a single task.
pub fn get_task(tasks: &Vec<Task>, n: usize) -> (r: Option<Task>)
    ensures
        n < tasks.deep_view().len() ==> (r matches Some(t) && t@ == tasks.deep_view()[n as int]),
        n >= tasks.deep_view().len() ==> r is None,
{
    if n < tasks.len() {
        Some(tasks[n].clone())
    } else {
        None
    }
}

/// Sets the state of the task at position `n` of the listing (0-based) and
/// hands the updated task back for feedback. An out-of-range position
/// changes nothing and yields `None`. Persisting the change and rewriting
/// the order index stay with the caller.
pub fn set_task_state(tasks: &mut Vec<Task>, n: usize, state: State) -> (r: Option<Task>)
    ensures
        n < old(tasks)@.len() ==> ({
            let t1 = (TaskView { state: state, ..old(tasks).deep_view()[n as int] });
            &&& final(tasks).deep_view() == old(tasks).deep_view().update(n as int, t1)
            &&& r matches Some(t) && t@ == t1
        }),
        n >= old(tasks)@.len() ==> final(tasks)@ == old(tasks)@ && r is None,
{
    if n < tasks.len() {
        let ghost prevraw = tasks@;
        let ghost prev = tasks.deep_view();
        let mut t = tasks[n].clone();
        t.state = state;
        let out = t.clone();
        tasks.set(n, t);
        proof {
            let t1 = (TaskView { state: state, ..prev[n as int] });
            assert forall|j: int| 0 <= j < prev.len() implies tasks.deep_view()[j] == prev.update(
                n as int,
                t1,
            )[j] by {
                assert(tasks.deep_view()[j] == tasks@[j].deep_view());
                if j != n {
                    assert(tasks@[j] == prevraw[j]);
                    assert(prev[j] == prevraw[j].deep_view());
                }
            }
            assert(tasks.deep_view() =~= prev.update(n as int, t1));
        }
        Some(out)
    } else {
        None
    }
}

/// Removes the task at position `n` of the listing (0-based) and hands it
/// back for feedback; later tasks move up one position. An out-of-range
/// position changes nothing and yields `None`. Deleting the record and
/// rewriting the order index stay with the caller.
pub fn remove_task(tasks: &mut Vec<Task>, n: usize) -> (r: Option<Task>)
    ensures
        n < old(tasks)@.len() ==> ({
            &&& final(tasks).deep_view() == old(tasks).deep_view().remove(n as int)
            &&& r matches Some(t) && t@ == old(tasks).deep_view()[n as int]
        }),
        n >= old(tasks)@.len() ==> final(tasks)@ == old(tasks)@ && r is None,
{
    if n < tasks.len() {
        let ghost prevraw = tasks@;
        let ghost prev = tasks.deep_view();
        let t = tasks.remove(n);
        proof {
            assert(tasks@ == prevraw.remove(n as int));
            assert forall|j: int| 0 <= j < prev.len() - 1 implies tasks.deep_view()[j]
                == prev.remove(n as int)[j] by {
                assert(tasks.deep_view()[j] == tasks@[j].deep_view());
                if j < n {
                    assert(tasks@[j] == prevraw[j]);
                    assert(prev[j] == prevraw[j].deep_view());
                } else {
                    assert(tasks@[j] == prevraw[j + 1]);
                    assert(prev[j + 1] == prevraw[j + 1].deep_view());
                }
            }
            assert(tasks.deep_view() =~= prev.remove(n as int));
        }
        Some(t)
    } else {
        None
    }
}

} // verus!
