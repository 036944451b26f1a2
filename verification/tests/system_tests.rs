use tarea::edits::Edits;
use tarea::listing::{list_tasks, run_batch};
use tarea::store::Store;
use tarea::task::{State, Task};

fn seeded(entries: &[(&str, &str, State)]) -> (Store, Vec<String>) {
    let mut store = Store::new();
    let mut index = Vec::new();
    for (id, text, state) in entries {
        let mut t = Task::with_id(id.to_string(), text.to_string());
        t.state = *state;
        store.save(&t);
        index.push(id.to_string());
    }
    (store, index)
}

#[test]
fn whole_batch_rewrites_store_and_index() {
    let (mut store, mut index) = seeded(&[
        ("a", "A", State::Pending),
        ("b", "B", State::Pending),
    ]);
    let mut e = Edits::new();
    e.remove(1);
    e.add("new");
    let (cs, out) = run_batch(&mut store, &mut index, &e, vec!["n1".to_string()]).unwrap();
    assert_eq!(cs.deleted.len(), 1);
    assert_eq!(cs.deleted[0].id, "a");
    assert_eq!(index, vec!["n1".to_string(), "b".to_string()]);
    // the removed record is gone, the new one resolves
    assert!(store.load(&"a".to_string()).is_err());
    assert_eq!(store.load(&"n1".to_string()).unwrap().task, "new");
    // the rewritten index lists exactly the final listing
    let again = list_tasks(&store, &index).unwrap();
    assert_eq!(again.len(), out.len());
    for (x, y) in again.iter().zip(out.iter()) {
        assert_eq!(x.id, y.id);
        assert_eq!(x.state, y.state);
    }
}

#[test]
fn updated_state_is_persisted() {
    let (mut store, mut index) = seeded(&[("a", "A", State::Pending)]);
    let mut e = Edits::new();
    e.update(1, State::Done);
    run_batch(&mut store, &mut index, &e, Vec::new()).unwrap();
    assert_eq!(store.load(&"a".to_string()).unwrap().state, State::Done);
}

#[test]
fn empty_batch_writes_nothing() {
    // the index is deliberately out of state order; an empty batch must not
    // rewrite it
    let (mut store, mut index) = seeded(&[
        ("d", "D", State::Done),
        ("p", "P", State::Pending),
    ]);
    let e = Edits::new();
    let (cs, out) = run_batch(&mut store, &mut index, &e, Vec::new()).unwrap();
    assert!(cs.added.is_empty() && cs.updated.is_empty() && cs.deleted.is_empty());
    assert_eq!(index, vec!["d".to_string(), "p".to_string()]);
    assert_eq!(out.len(), 2);
    assert_eq!(out[0].id, "d");
}

#[test]
fn dangling_index_entry_fails_before_any_write() {
    let (mut store, _) = seeded(&[("a", "A", State::Pending)]);
    let mut index = vec!["a".to_string(), "ghost".to_string()];
    let mut e = Edits::new();
    e.add("never stored");
    assert!(run_batch(&mut store, &mut index, &e, vec!["n1".to_string()]).is_err());
    assert_eq!(index, vec!["a".to_string(), "ghost".to_string()]);
    assert!(store.load(&"n1".to_string()).is_err());
}
