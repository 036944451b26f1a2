use tarea::listing::{get_task, list_tasks, remove_task, set_task_state};
use tarea::store::Store;
use tarea::task::{State, Task};
use tarea::Error;

fn task(id: &str, text: &str, state: State) -> Task {
    let mut t = Task::with_id(id.to_string(), text.to_string());
    t.state = state;
    t
}

#[test]
fn save_then_load_round_trips_every_field() {
    let mut store = Store::new();
    let mut t = Task::with_id("id-1".to_string(), "water the plants".to_string());
    t.state = State::WIP;
    t.parent = Some("id-0".to_string());
    store.save(&t);
    let got = store.load(&"id-1".to_string()).unwrap();
    assert_eq!(got.id, t.id);
    assert_eq!(got.task, t.task);
    assert_eq!(got.state, t.state);
    assert_eq!(got.parent, t.parent);
}

#[test]
fn load_of_a_missing_record_is_not_found() {
    let store = Store::new();
    let r = store.load(&"absent".to_string());
    assert_eq!(r.unwrap_err(), Error::NotFound);
}

#[test]
fn save_overwrites_the_whole_record() {
    let mut store = Store::new();
    store.save(&task("a", "first wording", State::Pending));
    store.save(&task("a", "second wording", State::Done));
    let got = store.load(&"a".to_string()).unwrap();
    assert_eq!(got.task, "second wording");
    assert_eq!(got.state, State::Done);
}

#[test]
fn delete_removes_and_is_idempotent() {
    let mut store = Store::new();
    store.save(&task("a", "A", State::Pending));
    store.save(&task("b", "B", State::Pending));
    store.delete(&"a".to_string());
    assert_eq!(store.load(&"a".to_string()).unwrap_err(), Error::NotFound);
    assert!(store.load(&"b".to_string()).is_ok());
    // deleting again is a harmless no-op
    store.delete(&"a".to_string());
    assert!(store.load(&"b".to_string()).is_ok());
}

#[test]
fn listing_resolves_the_index_in_order() {
    let mut store = Store::new();
    store.save(&task("a", "A", State::Pending));
    store.save(&task("b", "B", State::Done));
    let index = vec!["b".to_string(), "a".to_string()];
    let ts = list_tasks(&store, &index).unwrap();
    let order: Vec<&str> = ts.iter().map(|t| t.id.as_str()).collect();
    assert_eq!(order, vec!["b", "a"]);
}

#[test]
fn a_dangling_index_entry_fails_the_listing() {
    let mut store = Store::new();
    store.save(&task("a", "A", State::Pending));
    let index = vec!["a".to_string(), "ghost".to_string()];
    assert_eq!(list_tasks(&store, &index).unwrap_err(), Error::NotFound);
}

#[test]
fn empty_index_lists_nothing() {
    let store = Store::new();
    let ts = list_tasks(&store, &Vec::new()).unwrap();
    assert!(ts.is_empty());
}

#[test]
fn get_task_selects_by_position() {
    let tasks = vec![task("a", "A", State::Pending), task("b", "B", State::Done)];
    let got = get_task(&tasks, 1).unwrap();
    assert_eq!(got.id, "b");
    assert_eq!(got.state, State::Done);
    assert!(get_task(&tasks, 2).is_none());
}

#[test]
fn set_task_state_updates_in_place() {
    let mut tasks = vec![task("a", "A", State::Pending), task("b", "B", State::Pending)];
    let r = set_task_state(&mut tasks, 1, State::Done).unwrap();
    assert_eq!(r.id, "b");
    assert_eq!(r.state, State::Done);
    assert_eq!(tasks[1].state, State::Done);
    assert_eq!(tasks[0].state, State::Pending);
}

#[test]
fn set_task_state_out_of_range_is_none() {
    let mut tasks = vec![task("a", "A", State::Pending)];
    assert!(set_task_state(&mut tasks, 5, State::Done).is_none());
    assert_eq!(tasks.len(), 1);
    assert_eq!(tasks[0].state, State::Pending);
}

#[test]
fn remove_task_shifts_the_rest_up() {
    let mut tasks = vec![
        task("a", "A", State::Pending),
        task("b", "B", State::Pending),
        task("c", "C", State::Pending),
    ];
    let r = remove_task(&mut tasks, 0).unwrap();
    assert_eq!(r.id, "a");
    let order: Vec<&str> = tasks.iter().map(|t| t.id.as_str()).collect();
    assert_eq!(order, vec!["b", "c"]);
}

#[test]
fn remove_task_out_of_range_is_none() {
    let mut tasks = vec![task("a", "A", State::Pending)];
    assert!(remove_task(&mut tasks, 1).is_none());
    assert_eq!(tasks.len(), 1);
}
