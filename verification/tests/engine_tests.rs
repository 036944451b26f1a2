use tarea::edits::Edits;
use tarea::task::{State, Task};

fn task(id: &str, text: &str, state: State) -> Task {
    let mut t = Task::with_id(id.to_string(), text.to_string());
    t.state = state;
    t
}

fn ids(v: &[&str]) -> Vec<String> {
    v.iter().map(|s| s.to_string()).collect()
}

#[test]
fn empty_batch_is_a_no_op() {
    let tasks = vec![
        task("a", "one", State::Done),
        task("b", "two", State::Pending),
    ];
    let e = Edits::new();
    let (cs, out) = e.apply(tasks, Vec::new());
    assert!(cs.added.is_empty());
    assert!(cs.updated.is_empty());
    assert!(cs.deleted.is_empty());
    // the listing comes back as it was, not even re-sorted
    assert_eq!(out.len(), 2);
    assert_eq!(out[0].id, "a");
    assert_eq!(out[0].state, State::Done);
    assert_eq!(out[1].id, "b");
}

#[test]
fn add_to_empty_store() {
    let mut e = Edits::new();
    e.add("buy milk");
    let (cs, out) = e.apply(Vec::new(), ids(&["fresh-1"]));
    assert_eq!(out.len(), 1);
    assert_eq!(out[0].task, "buy milk");
    assert_eq!(out[0].state, State::Pending);
    assert_eq!(out[0].id, "fresh-1");
    assert!(out[0].parent.is_none());
    assert_eq!(cs.added, vec!["fresh-1".to_string()]);
    assert!(cs.updated.is_empty());
    assert!(cs.deleted.is_empty());
}

#[test]
fn update_moves_task_to_its_state_group() {
    let tasks = vec![
        task("a", "A", State::Pending),
        task("b", "B", State::Pending),
        task("c", "C", State::Pending),
    ];
    let mut e = Edits::new();
    e.update(2, State::Done); // 1-based position 2 is task B
    let (cs, out) = e.apply(tasks, Vec::new());
    let order: Vec<&str> = out.iter().map(|t| t.id.as_str()).collect();
    assert_eq!(order, vec!["a", "c", "b"]);
    assert_eq!(out[2].state, State::Done);
    assert_eq!(cs.updated, vec!["b".to_string()]);
    assert!(cs.added.is_empty());
    assert!(cs.deleted.is_empty());
}

#[test]
fn remove_and_add_in_one_batch() {
    let tasks = vec![
        task("a", "A", State::Pending),
        task("b", "B", State::Done),
    ];
    let mut e = Edits::new();
    e.remove(1); // 1-based: removes A
    e.add("new");
    let (cs, out) = e.apply(tasks, ids(&["n1"]));
    let order: Vec<&str> = out.iter().map(|t| t.id.as_str()).collect();
    assert_eq!(order, vec!["n1", "b"]);
    assert_eq!(out[0].state, State::Pending);
    assert_eq!(out[0].task, "new");
    assert_eq!(out[1].state, State::Done);
    assert_eq!(cs.added, vec!["n1".to_string()]);
    assert_eq!(cs.deleted.len(), 1);
    assert_eq!(cs.deleted[0].id, "a");
    assert_eq!(cs.deleted[0].task, "A");
}

#[test]
fn remove_positions_are_one_based_and_zero_clamps() {
    let tasks = vec![
        task("a", "A", State::Pending),
        task("b", "B", State::Pending),
        task("c", "C", State::Pending),
    ];
    let mut e = Edits::new();
    e.remove(1);
    let (cs, out) = e.apply(tasks, Vec::new());
    assert_eq!(cs.deleted.len(), 1);
    assert_eq!(cs.deleted[0].id, "a");
    let order: Vec<&str> = out.iter().map(|t| t.id.as_str()).collect();
    assert_eq!(order, vec!["b", "c"]);

    // position 0 clamps to the first task as well
    let tasks = vec![
        task("a", "A", State::Pending),
        task("b", "B", State::Pending),
        task("c", "C", State::Pending),
    ];
    let mut e = Edits::new();
    e.remove(0);
    let (cs, out) = e.apply(tasks, Vec::new());
    assert_eq!(cs.deleted.len(), 1);
    assert_eq!(cs.deleted[0].id, "a");
    assert_eq!(out.len(), 2);
}

#[test]
fn out_of_range_remove_is_ignored() {
    let tasks = vec![
        task("a", "A", State::Pending),
        task("b", "B", State::Done),
    ];
    let mut e = Edits::new();
    e.remove(99);
    let (cs, out) = e.apply(tasks, Vec::new());
    assert!(cs.deleted.is_empty());
    assert!(cs.added.is_empty());
    assert!(cs.updated.is_empty());
    assert_eq!(out.len(), 2);
    let order: Vec<&str> = out.iter().map(|t| t.id.as_str()).collect();
    assert_eq!(order, vec!["a", "b"]);
}

#[test]
fn positions_refer_to_the_pre_batch_listing() {
    // removing slot 1 does not shift slot 2: a later update still hits "c"
    let tasks = vec![
        task("a", "A", State::Pending),
        task("b", "B", State::Pending),
        task("c", "C", State::Pending),
    ];
    let mut e = Edits::new();
    e.remove(2);
    e.update(3, State::Done);
    let (cs, out) = e.apply(tasks, Vec::new());
    assert_eq!(cs.deleted.len(), 1);
    assert_eq!(cs.deleted[0].id, "b");
    assert_eq!(cs.updated, vec!["c".to_string()]);
    let order: Vec<&str> = out.iter().map(|t| t.id.as_str()).collect();
    assert_eq!(order, vec!["a", "c"]);
    assert_eq!(out[1].state, State::Done);
}

#[test]
fn remove_then_update_same_slot_updates_nothing() {
    let tasks = vec![task("a", "A", State::Pending)];
    let mut e = Edits::new();
    e.remove(1);
    e.update(1, State::Done);
    let (cs, out) = e.apply(tasks, Vec::new());
    assert_eq!(cs.deleted.len(), 1);
    assert!(cs.updated.is_empty());
    assert!(out.is_empty());
}

#[test]
fn updating_twice_records_the_id_once() {
    let tasks = vec![task("a", "A", State::Pending)];
    let mut e = Edits::new();
    e.update(1, State::WIP);
    e.update(1, State::Done);
    let (cs, out) = e.apply(tasks, Vec::new());
    assert_eq!(cs.updated, vec!["a".to_string()]);
    assert_eq!(out[0].state, State::Done);
}

#[test]
fn stable_sort_keeps_relative_order_within_a_state() {
    // added tasks first, then survivors, each group in original order
    let tasks = vec![
        task("p1", "P1", State::Pending),
        task("d1", "D1", State::Done),
        task("p2", "P2", State::Pending),
        task("w1", "W1", State::WIP),
    ];
    let mut e = Edits::new();
    e.add("new pending");
    let (_, out) = e.apply(tasks, ids(&["np"]));
    let order: Vec<&str> = out.iter().map(|t| t.id.as_str()).collect();
    assert_eq!(order, vec!["np", "p1", "p2", "w1", "d1"]);
}

#[test]
fn batch_with_generated_identifiers() {
    let mut e = Edits::new();
    e.add("one");
    e.add("two");
    let (cs, out) = e.apply_batch(Vec::new());
    assert_eq!(out.len(), 2);
    assert_eq!(cs.added.len(), 2);
    assert_ne!(out[0].id, out[1].id);
    for t in &out {
        assert_eq!(t.id.len(), 36);
        assert!(!t.id.contains('\n'));
        assert_eq!(t.state, State::Pending);
    }
    let texts: Vec<&str> = out.iter().map(|t| t.task.as_str()).collect();
    assert_eq!(texts, vec!["one", "two"]);
}

#[test]
fn generated_identifier_shape() {
    let t = Task::new("x".to_string());
    assert_eq!(t.id.len(), 36);
    assert!(t
        .id
        .chars()
        .all(|c| c.is_ascii_hexdigit() && !c.is_ascii_uppercase() || c == '-'));
    assert_eq!(t.state, State::Pending);
    assert_eq!(t.task, "x");
    assert!(t.parent.is_none());
}
