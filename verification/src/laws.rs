//! Proved laws of the batch edit engine: what an empty batch does, what an
//! out-of-range intent does, that the final listing is a stable state-sort of
//! the pre-sort concatenation, and that the rewritten order index holds
//! exactly the surviving identifiers, each exactly once.

use vstd::prelude::*;
use vstd::seq_lib::*;

use crate::edits::{ChangesetView, EditView};
use crate::engine::{
    batch_result, batch_run, batch_step, combined, count_adds, sort_by_state, survivors,
    with_state, BatchView,
};
use crate::task::{State, TaskView};

verus! {

/// The identifiers of a listing, in listing order.
pub open spec fn ids_of(tasks: Seq<TaskView>) -> Seq<Seq<char>> {
    tasks.map_values(|t: TaskView| t.id)
}

/// An empty batch is a no-op: its changeset is empty and the listing comes
/// back exactly as it was, not even re-sorted.
pub proof fn lemma_empty_batch(tasks: Seq<TaskView>, ids: Seq<Seq<char>>)
    ensures
        batch_result(tasks, Seq::<EditView>::empty(), ids).0 == ChangesetView::empty(),
        batch_result(tasks, Seq::<EditView>::empty(), ids).1 == tasks,
{
}

/// A removal or update that names a position outside the snapshot, or a slot
/// already emptied by an earlier removal in the same batch, changes nothing:
/// no task, no changeset entry, no error.
pub proof fn lemma_out_of_range_ignored(b: BatchView, e: EditView, ids: Seq<Seq<char>>)
    requires
        !(e is Add),
        e matches EditView::Remove { at } ==> !(0 <= at < b.slots.len() && b.slots[at] is Some),
        e matches EditView::Update { at, .. } ==> !(0 <= at < b.slots.len()
            && b.slots[at] is Some),
    ensures
        batch_step(b, e, ids) == b,
{
}

/// A sequence whose elements all satisfy the predicate filters to itself.
proof fn lemma_filter_all<A>(s: Seq<A>, p: spec_fn(A) -> bool)
    requires
        forall|i: int| 0 <= i < s.len() ==> p(#[trigger] s[i]),
    ensures
        s.filter(p) == s,
    decreases s.len(),
{
    reveal(Seq::filter);
    if s.len() != 0 {
        lemma_filter_all(s.drop_last(), p);
        assert(s.drop_last().push(s.last()) =~= s);
    }
}

/// A sequence none of whose elements satisfies the predicate filters to the
/// empty sequence.
proof fn lemma_filter_none<A>(s: Seq<A>, p: spec_fn(A) -> bool)
    requires
        forall|i: int| 0 <= i < s.len() ==> !p(#[trigger] s[i]),
    ensures
        s.filter(p) == Seq::<A>::empty(),
    decreases s.len(),
{
    reveal(Seq::filter);
    if s.len() != 0 {
        lemma_filter_none(s.drop_last(), p);
    }
}

/// Restricting one state group of a listing to a state keeps the whole group
/// (same state) or nothing (different state).
proof fn lemma_with_state_group(pre: Seq<TaskView>, g: State, s: State)
    ensures
        g == s ==> with_state(with_state(pre, g), s) == with_state(pre, s),
        g != s ==> with_state(with_state(pre, g), s) == Seq::<TaskView>::empty(),
{
    broadcast use vstd::seq_lib::group_filter_ensures;

    let ps = |t: TaskView| t.state == s;
    let inner = with_state(pre, g);
    if g == s {
        lemma_filter_all(inner, ps);
    } else {
        lemma_filter_none(inner, ps);
    }
}

/// Which state the task at a given position of the sorted listing has: the
/// pending group comes first, then the in-progress group, then the done group.
proof fn lemma_sort_group_at(pre: Seq<TaskView>, i: int)
    requires
        0 <= i < sort_by_state(pre).len(),
    ensures
        ({
            let a = with_state(pre, State::Pending);
            let b = with_state(pre, State::WIP);
            &&& (i < a.len() ==> sort_by_state(pre)[i].state == State::Pending)
            &&& (a.len() <= i < a.len() + b.len() ==> sort_by_state(pre)[i].state == State::WIP)
            &&& (a.len() + b.len() <= i ==> sort_by_state(pre)[i].state == State::Done)
        }),
{
    let a = with_state(pre, State::Pending);
    let b = with_state(pre, State::WIP);
    let c = with_state(pre, State::Done);
    broadcast use vstd::seq_lib::group_filter_ensures;

    if i < a.len() {
        assert(sort_by_state(pre)[i] == a[i]);
    } else if i < a.len() + b.len() {
        assert(sort_by_state(pre)[i] == b[i - a.len()]);
    } else {
        assert(sort_by_state(pre)[i] == c[i - a.len() - b.len()]);
    }
}

/// Stable sort law. The sorted listing is ordered by ascending state, and its
/// restriction to any one state equals the same restriction of the pre-sort
/// concatenation: tasks of equal state keep their relative order, newly added
/// tasks (which stand first in the concatenation) before surviving ones.
pub proof fn lemma_sorted_stable(pre: Seq<TaskView>)
    ensures
        forall|i: int, j: int|
            0 <= i <= j < sort_by_state(pre).len() ==> (#[trigger] sort_by_state(pre)[i]).state.ord()
                <= (#[trigger] sort_by_state(pre)[j]).state.ord(),
        forall|s: State| #[trigger] with_state(sort_by_state(pre), s) == with_state(pre, s),
{
    let a = with_state(pre, State::Pending);
    let b = with_state(pre, State::WIP);
    let c = with_state(pre, State::Done);
    assert forall|i: int, j: int| 0 <= i <= j < sort_by_state(pre).len() implies (
    #[trigger] sort_by_state(pre)[i]).state.ord() <= (#[trigger] sort_by_state(pre)[j]).state.ord() by {
        lemma_sort_group_at(pre, i);
        lemma_sort_group_at(pre, j);
    }
    assert forall|s: State| #[trigger] with_state(sort_by_state(pre), s) == with_state(pre, s) by {
        let ps = |t: TaskView| t.state == s;
        Seq::<TaskView>::filter_distributes_over_add(a + b, c, ps);
        Seq::<TaskView>::filter_distributes_over_add(a, b, ps);
        lemma_with_state_group(pre, State::Pending, s);
        lemma_with_state_group(pre, State::WIP, s);
        lemma_with_state_group(pre, State::Done, s);
        match s {
            State::Pending => {
                assert(with_state(a, s) + with_state(b, s) + with_state(c, s) =~= with_state(
                    pre,
                    s,
                ));
            },
            State::WIP => {
                assert(with_state(a, s) + with_state(b, s) + with_state(c, s) =~= with_state(
                    pre,
                    s,
                ));
            },
            State::Done => {
                assert(with_state(a, s) + with_state(b, s) + with_state(c, s) =~= with_state(
                    pre,
                    s,
                ));
            },
        }
    }
}

/// A pushed sequence holds exactly the old elements and the new one.
proof fn lemma_contains_push<A>(s: Seq<A>, x: A, y: A)
    ensures
        s.push(x).contains(y) <==> (s.contains(y) || x == y),
{
    if s.push(x).contains(y) {
        let k = choose|k: int| 0 <= k < s.push(x).len() && s.push(x)[k] == y;
        if k < s.len() {
            assert(s[k] == y);
        }
    }
    if s.contains(y) {
        let k = choose|k: int| 0 <= k < s.len() && s[k] == y;
        assert(s.push(x)[k] == y);
    }
    if x == y {
        assert(s.push(x)[s.len() as int] == y);
    }
}

/// Structure of a finished batch run: the snapshot keeps its length and every
/// occupied slot keeps the identifier it started with; the added buffer and
/// the changeset's added list both hold exactly the consumed fresh
/// identifiers, in order; and the changeset's deleted list holds exactly the
/// identifiers of the emptied slots.
proof fn lemma_run_shape(tasks: Seq<TaskView>, edits: Seq<EditView>, ids: Seq<Seq<char>>)
    requires
        count_adds(edits) <= ids.len(),
    ensures
        ({
            let b = batch_run(tasks, edits, ids);
            &&& b.slots.len() == tasks.len()
            &&& b.ids_used == count_adds(edits)
            &&& 0 <= b.ids_used <= ids.len()
            &&& forall|i: int|
                0 <= i < tasks.len() ==> ((#[trigger] b.slots[i]) matches Some(t) ==> t.id
                    == tasks[i].id)
            &&& ids_of(b.added_tasks) == ids.take(b.ids_used)
            &&& b.cs.added == ids.take(b.ids_used)
            &&& forall|id: Seq<char>|
                #[trigger] ids_of(b.cs.deleted).contains(id) <==> (exists|i: int|
                    0 <= i < tasks.len() && b.slots[i] is None && tasks[i].id == id)
        }),
    decreases edits.len(),
{
    let b = batch_run(tasks, edits, ids);
    if edits.len() == 0 {
        assert(b.slots.len() == tasks.len());
        assert(ids_of(b.added_tasks) =~= ids.take(0));
        assert(b.cs.added =~= ids.take(0));
        assert(forall|i: int| 0 <= i < tasks.len() ==> #[trigger] b.slots[i] == Some(tasks[i]));
        assert(ids_of(b.cs.deleted).len() == 0);
        assert forall|id: Seq<char>| #[trigger] ids_of(b.cs.deleted).contains(id) <==> (
        exists|i: int| 0 <= i < tasks.len() && b.slots[i] is None && tasks[i].id == id) by {
            assert(!ids_of(b.cs.deleted).contains(id));
        }
    } else {
        let s0 = edits.drop_last();
        let e = edits.last();
        let b0 = batch_run(tasks, s0, ids);
        lemma_run_shape(tasks, s0, ids);
        let u = b0.ids_used;
        match e {
            EditView::Add { text } => {
                assert(count_adds(edits) == count_adds(s0) + 1);
                let t = crate::engine::new_task(ids[u], text);
                assert(ids_of(b.added_tasks) =~= ids_of(b0.added_tasks).push(t.id));
                assert(ids.take(u + 1) =~= ids.take(u).push(ids[u]));
                assert(ids_of(b.added_tasks) =~= ids.take(b.ids_used));
                assert(b.cs.added =~= ids.take(b.ids_used));
            },
            EditView::Remove { at } => {
                if 0 <= at < b0.slots.len() && b0.slots[at] is Some {
                    let d = b0.slots[at]->0;
                    assert(d.id == tasks[at].id);
                    assert(ids_of(b.cs.deleted) =~= ids_of(b0.cs.deleted).push(d.id));
                    assert forall|id: Seq<char>| #[trigger] ids_of(b.cs.deleted).contains(id)
                        <==> (exists|i: int|
                        0 <= i < tasks.len() && b.slots[i] is None && tasks[i].id == id) by {
                        lemma_contains_push(ids_of(b0.cs.deleted), d.id, id);
                        if ids_of(b.cs.deleted).contains(id) {
                            if ids_of(b0.cs.deleted).contains(id) {
                                let i = choose|i: int|
                                    0 <= i < tasks.len() && b0.slots[i] is None && tasks[i].id
                                        == id;
                                assert(b.slots[i] is None && tasks[i].id == id);
                            } else {
                                assert(id == d.id);
                                assert(b.slots[at] is None && tasks[at].id == id);
                            }
                        }
                        if exists|i: int|
                            0 <= i < tasks.len() && b.slots[i] is None && tasks[i].id == id {
                            let i = choose|i: int|
                                0 <= i < tasks.len() && b.slots[i] is None && tasks[i].id == id;
                            if i == at {
                                assert(id == d.id);
                            } else {
                                assert(b0.slots[i] is None);
                                assert(ids_of(b0.cs.deleted).contains(id));
                            }
                        }
                    }
                }
            },
            EditView::Update { at, state } => {
                if 0 <= at < b0.slots.len() && b0.slots[at] is Some {
                    assert forall|i: int|
                        0 <= i < tasks.len() implies ((#[trigger] b.slots[i]) matches Some(t)
                        ==> t.id == tasks[i].id) by {
                        if i != at {
                            assert(b.slots[i] == b0.slots[i]);
                        }
                    }
                    assert forall|id: Seq<char>| #[trigger] ids_of(b.cs.deleted).contains(id)
                        <==> (exists|i: int|
                        0 <= i < tasks.len() && b.slots[i] is None && tasks[i].id == id) by {
                        assert forall|i: int| 0 <= i < tasks.len() implies (b.slots[i]
                            is None <==> b0.slots[i] is None) by {
                            if i != at {
                                assert(b.slots[i] == b0.slots[i]);
                            }
                        }
                    }
                }
            },
        }
    }
}

/// A task is a survivor of the snapshot exactly when some slot still holds it.
proof fn lemma_survivors_membership(slots: Seq<Option<TaskView>>)
    ensures
        forall|t: TaskView|
            #[trigger] survivors(slots).contains(t) <==> (exists|i: int|
                0 <= i < slots.len() && slots[i] == Some(t)),
    decreases slots.len(),
{
    if slots.len() > 0 {
        let dl = slots.drop_last();
        lemma_survivors_membership(dl);
        assert forall|t: TaskView| #[trigger] survivors(slots).contains(t) <==> (exists|i: int|
            0 <= i < slots.len() && slots[i] == Some(t)) by {
            match slots.last() {
                Some(x) => {
                    assert(survivors(slots) == survivors(dl).push(x));
                    lemma_contains_push(survivors(dl), x, t);
                    if survivors(slots).contains(t) {
                        if survivors(dl).contains(t) {
                            let i = choose|i: int| 0 <= i < dl.len() && dl[i] == Some(t);
                            assert(slots[i] == Some(t));
                        } else {
                            assert(slots[slots.len() - 1] == Some(t));
                        }
                    }
                    if exists|i: int| 0 <= i < slots.len() && slots[i] == Some(t) {
                        let i = choose|i: int| 0 <= i < slots.len() && slots[i] == Some(t);
                        if i < slots.len() - 1 {
                            assert(dl[i] == Some(t));
                            assert(survivors(dl).contains(t));
                        } else {
                            assert(t == x);
                        }
                    }
                },
                None => {
                    assert(survivors(slots) == survivors(dl));
                    if survivors(slots).contains(t) {
                        let i = choose|i: int| 0 <= i < dl.len() && dl[i] == Some(t);
                        assert(slots[i] == Some(t));
                    }
                    if exists|i: int| 0 <= i < slots.len() && slots[i] == Some(t) {
                        let i = choose|i: int| 0 <= i < slots.len() && slots[i] == Some(t);
                        assert(dl[i] == Some(t));
                        assert(survivors(dl).contains(t));
                    }
                },
            }
        }
    }
}

/// If the occupied slots carry pairwise distinct identifiers (those of the
/// pre-batch listing), the survivors' identifiers are pairwise distinct too.
proof fn lemma_survivors_distinct(slots: Seq<Option<TaskView>>, tids: Seq<Seq<char>>)
    requires
        slots.len() == tids.len(),
        forall|i: int|
            0 <= i < slots.len() ==> ((#[trigger] slots[i]) matches Some(t) ==> t.id == tids[i]),
        tids.no_duplicates(),
    ensures
        ids_of(survivors(slots)).no_duplicates(),
        forall|t: TaskView| #[trigger] survivors(slots).contains(t) ==> tids.contains(t.id),
    decreases slots.len(),
{
    lemma_survivors_membership(slots);
    assert forall|t: TaskView| #[trigger] survivors(slots).contains(t) implies tids.contains(
        t.id,
    ) by {
        let i = choose|i: int| 0 <= i < slots.len() && slots[i] == Some(t);
        assert(tids[i] == t.id);
    }
    if slots.len() > 0 {
        let dl = slots.drop_last();
        let dt = tids.drop_last();
        assert(forall|i: int|
            0 <= i < dl.len() ==> ((#[trigger] dl[i]) matches Some(t) ==> t.id == dt[i]));
        lemma_survivors_distinct(dl, dt);
        match slots.last() {
            Some(x) => {
                let prev = ids_of(survivors(dl));
                assert(ids_of(survivors(slots)) =~= prev.push(x.id));
                assert(x.id == tids[tids.len() - 1]);
                assert forall|k: int| 0 <= k < prev.len() implies prev[k] != x.id by {
                    let t = survivors(dl)[k];
                    assert(prev[k] == t.id);
                    assert(survivors(dl).contains(t));
                    lemma_survivors_membership(dl);
                    let i = choose|i: int| 0 <= i < dl.len() && dl[i] == Some(t);
                    assert(dt[i] == t.id);
                    assert(tids[i] == t.id);
                }
            },
            None => {
                assert(survivors(slots) == survivors(dl));
            },
        }
    } else {
        assert(ids_of(survivors(slots)).len() == 0);
    }
}

/// Sorting by state only rearranges: the sorted listing holds the same tasks
/// with the same multiplicities as the listing it was made from.
pub proof fn lemma_sort_permutes(pre: Seq<TaskView>)
    ensures
        sort_by_state(pre).to_multiset() == pre.to_multiset(),
    decreases pre.len(),
{
    broadcast use vstd::seq_lib::group_to_multiset_ensures;
    broadcast use vstd::multiset::group_multiset_axioms;

    let a = with_state(pre, State::Pending);
    let b = with_state(pre, State::WIP);
    let c = with_state(pre, State::Done);
    if pre.len() == 0 {
        reveal(Seq::filter);
        assert(sort_by_state(pre) =~= pre);
    } else {
        let s = pre.drop_last();
        let x = pre.last();
        lemma_sort_permutes(s);
        assert(s.push(x) =~= pre);
        crate::engine::lemma_filter_push(s, x, |t: TaskView| t.state == State::Pending);
        crate::engine::lemma_filter_push(s, x, |t: TaskView| t.state == State::WIP);
        crate::engine::lemma_filter_push(s, x, |t: TaskView| t.state == State::Done);
        let sa = with_state(s, State::Pending);
        let sb = with_state(s, State::WIP);
        let sc = with_state(s, State::Done);
        lemma_multiset_commutative(a + b, c);
        lemma_multiset_commutative(a, b);
        lemma_multiset_commutative(sa + sb, sc);
        lemma_multiset_commutative(sa, sb);
        assert(s.push(x).to_multiset() =~= s.to_multiset().insert(x));
        match x.state {
            State::Pending => {
                assert(a == sa.push(x) && b == sb && c == sc);
                assert(a.to_multiset() =~= sa.to_multiset().insert(x));
                assert(sort_by_state(pre).to_multiset() =~= sort_by_state(s).to_multiset().insert(
                    x,
                ));
            },
            State::WIP => {
                assert(a == sa && b == sb.push(x) && c == sc);
                assert(b.to_multiset() =~= sb.to_multiset().insert(x));
                assert(sort_by_state(pre).to_multiset() =~= sort_by_state(s).to_multiset().insert(
                    x,
                ));
            },
            State::Done => {
                assert(a == sa && b == sb && c == sc.push(x));
                assert(c.to_multiset() =~= sc.to_multiset().insert(x));
                assert(sort_by_state(pre).to_multiset() =~= sort_by_state(s).to_multiset().insert(
                    x,
                ));
            },
        }
        assert(sort_by_state(pre).to_multiset() =~= pre.to_multiset());
    }
}

/// Order invariant. After a non-empty batch run on a listing with pairwise
/// distinct identifiers, fed pairwise distinct fresh identifiers that do not
/// occur in the listing, the final listing's identifiers — what the order
/// index is rewritten with — are exactly the identifiers of the tasks that
/// survive the batch: every pre-batch or newly added task that was not
/// removed, and each identifier exactly once.
pub proof fn lemma_order_invariant(tasks: Seq<TaskView>, edits: Seq<EditView>, ids: Seq<Seq<char>>)
    requires
        edits.len() > 0,
        count_adds(edits) <= ids.len(),
        ids_of(tasks).no_duplicates(),
        ids.no_duplicates(),
        forall|i: int| 0 <= i < ids.len() ==> !ids_of(tasks).contains(#[trigger] ids[i]),
    ensures
        ({
            let r = batch_result(tasks, edits, ids);
            &&& ids_of(r.1).no_duplicates()
            &&& forall|id: Seq<char>|
                #[trigger] ids_of(r.1).contains(id) <==> ((ids_of(tasks).contains(id)
                    || r.0.added.contains(id)) && !ids_of(r.0.deleted).contains(id))
        }),
{
    broadcast use vstd::seq_lib::group_to_multiset_ensures;
    broadcast use vstd::multiset::group_multiset_axioms;

    let bf = batch_run(tasks, edits, ids);
    lemma_run_shape(tasks, edits, ids);
    let pre = combined(bf);
    let out = sort_by_state(pre);
    let tids = ids_of(tasks);
    let surv = survivors(bf.slots);
    let added = bf.added_tasks;
    let aids = ids_of(added);
    let sids = ids_of(surv);
    let u = bf.ids_used;
    assert(forall|i: int| 0 <= i < tasks.len() ==> #[trigger] tids[i] == tasks[i].id);
    lemma_survivors_membership(bf.slots);
    lemma_survivors_distinct(bf.slots, tids);
    assert(aids == ids.take(u));

    // the identifiers of the pre-sort concatenation, and their distinctness
    assert(ids_of(pre) =~= aids + sids);
    assert(aids.no_duplicates());
    assert forall|p: int, q: int| 0 <= p < aids.len() && 0 <= q < sids.len() implies aids[p]
        != sids[q] by {
        assert(aids[p] == ids[p]);
        let t = surv[q];
        assert(surv.contains(t));
        assert(tids.contains(t.id));
        assert(sids[q] == t.id);
    }
    assert forall|i: int, j: int| 0 <= i < j < ids_of(pre).len() implies ids_of(pre)[i]
        != ids_of(pre)[j] by {
        if j < aids.len() {
            assert(ids_of(pre)[i] == aids[i] && ids_of(pre)[j] == aids[j]);
        } else if i < aids.len() {
            assert(ids_of(pre)[i] == aids[i] && ids_of(pre)[j] == sids[j - aids.len()]);
        } else {
            assert(ids_of(pre)[i] == sids[i - aids.len()] && ids_of(pre)[j] == sids[j
                - aids.len()]);
        }
    }
    assert(ids_of(pre).no_duplicates());
    assert forall|i: int, j: int| 0 <= i < j < pre.len() implies pre[i] != pre[j] by {
        assert(ids_of(pre)[i] == pre[i].id && ids_of(pre)[j] == pre[j].id);
    }
    assert(pre.no_duplicates());

    // the sorted listing is a permutation, so its identifiers are the same
    // set, still pairwise distinct
    lemma_sort_permutes(pre);
    pre.lemma_multiset_has_no_duplicates();
    out.lemma_multiset_has_no_duplicates_conv();
    assert forall|i: int, j: int| 0 <= i < j < ids_of(out).len() implies ids_of(out)[i]
        != ids_of(out)[j] by {
        let ti = out[i];
        let tj = out[j];
        assert(ids_of(out)[i] == ti.id && ids_of(out)[j] == tj.id);
        assert(ti != tj);
        assert(out.contains(ti) && out.contains(tj));
        assert(out.to_multiset().count(ti) > 0 && out.to_multiset().count(tj) > 0);
        assert(pre.to_multiset().count(ti) > 0 && pre.to_multiset().count(tj) > 0);
        assert(pre.contains(ti) && pre.contains(tj));
        if ti.id == tj.id {
            let p = choose|p: int| 0 <= p < pre.len() && pre[p] == ti;
            let q = choose|q: int| 0 <= q < pre.len() && pre[q] == tj;
            assert(ids_of(pre)[p] == ti.id && ids_of(pre)[q] == tj.id);
        }
    }
    assert(ids_of(out).no_duplicates());

    // membership: exactly the surviving identifiers
    assert forall|id: Seq<char>| #[trigger] ids_of(out).contains(id) <==> ((tids.contains(id)
        || bf.cs.added.contains(id)) && !ids_of(bf.cs.deleted).contains(id)) by {
        if ids_of(out).contains(id) {
            let k = choose|k: int| 0 <= k < ids_of(out).len() && ids_of(out)[k] == id;
            let t = out[k];
            assert(t.id == id);
            assert(out.contains(t));
            assert(out.to_multiset().count(t) > 0);
            assert(pre.to_multiset().count(t) > 0);
            assert(pre.contains(t));
            let p = choose|p: int| 0 <= p < pre.len() && pre[p] == t;
            if p < added.len() {
                assert(t == added[p]);
                assert(aids[p] == t.id);
                assert(bf.cs.added[p] == id);
                assert(bf.cs.added.contains(id));
                assert(id == ids[p]);
                if ids_of(bf.cs.deleted).contains(id) {
                    let w = choose|w: int|
                        0 <= w < tasks.len() && bf.slots[w] is None && tasks[w].id == id;
                    assert(tids[w] == id);
                    assert(tids.contains(id));
                }
            } else {
                assert(t == surv[p - added.len()]);
                assert(surv.contains(t));
                let i = choose|i: int| 0 <= i < bf.slots.len() && bf.slots[i] == Some(t);
                assert(tasks[i].id == t.id);
                assert(tids[i] == id);
                assert(tids.contains(id));
                if ids_of(bf.cs.deleted).contains(id) {
                    let w = choose|w: int|
                        0 <= w < tasks.len() && bf.slots[w] is None && tasks[w].id == id;
                    assert(tids[w] == id && tids[i] == id);
                    assert(w == i);
                }
            }
        }
        if (tids.contains(id) || bf.cs.added.contains(id)) && !ids_of(bf.cs.deleted).contains(
            id,
        ) {
            if bf.cs.added.contains(id) {
                let p = choose|p: int| 0 <= p < bf.cs.added.len() && bf.cs.added[p] == id;
                let t = added[p];
                assert(aids[p] == t.id);
                assert(t.id == id);
                assert(pre[p] == t);
                assert(pre.contains(t));
                assert(pre.to_multiset().count(t) > 0);
                assert(out.to_multiset().count(t) > 0);
                assert(out.contains(t));
                let k = choose|k: int| 0 <= k < out.len() && out[k] == t;
                assert(ids_of(out)[k] == id);
                assert(ids_of(out).contains(id));
            } else {
                let i = choose|i: int| 0 <= i < tids.len() && tids[i] == id;
                assert(tasks[i].id == id);
                if bf.slots[i] is None {
                    assert(ids_of(bf.cs.deleted).contains(id));
                }
                let t = bf.slots[i]->0;
                assert(bf.slots[i] == Some(t));
                assert(t.id == tasks[i].id);
                assert(surv.contains(t));
                let q = choose|q: int| 0 <= q < surv.len() && surv[q] == t;
                assert(pre[added.len() + q] == t);
                assert(pre.contains(t));
                assert(pre.to_multiset().count(t) > 0);
                assert(out.to_multiset().count(t) > 0);
                assert(out.contains(t));
                let k = choose|k: int| 0 <= k < out.len() && out[k] == t;
                assert(ids_of(out)[k] == id);
                assert(ids_of(out).contains(id));
            }
        }
    }
}

} // verus!
