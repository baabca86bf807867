use any_spawner::Executor;
use reactive_graph::effect::RenderEffect;
use reactive_graph::traits::{Notify, Track};
use reactive_stores::path::StorePathSegment;
use reactive_stores::store_field::{Root, StoreField, Subfield};
use reactive_stores::trigger::StoreFieldTrigger;
use reactive_stores::value::{eq_value, StoreValue};
use reactive_stores::Store;
use std::sync::atomic::{AtomicUsize, Ordering};
use std::sync::Arc;

fn init_executor() {
    let _ = Executor::init_futures_executor();
}

fn tick() {
    Executor::poll_local();
}

fn todo(label: &str, completed: bool) -> StoreValue {
    StoreValue::Record(vec![
        StoreValue::Text(label.to_string()),
        StoreValue::Bool(completed),
    ])
}

fn data() -> StoreValue {
    StoreValue::Record(vec![
        StoreValue::Text("Bob".to_string()),
        StoreValue::List(vec![
            todo("Create reactive store", true),
            todo("???", false),
            todo("Profit", false),
        ]),
    ])
}

fn user_acc() -> Subfield<Root> {
    Subfield::new(Root, StorePathSegment(0))
}

fn todos_acc() -> Subfield<Root> {
    Subfield::new(Root, StorePathSegment(1))
}

/// An effect that subscribes, on every run, to the triggers a tracked read of
/// a field registers: the field's own pair and each ancestor's own trigger.
fn effect_reading(
    field: StoreFieldTrigger,
    ancestors: Vec<StoreFieldTrigger>,
    count: Arc<AtomicUsize>,
) -> RenderEffect<()> {
    RenderEffect::new(move |_prev: Option<()>| {
        field.this.track();
        field.children.track();
        for ancestor in &ancestors {
            ancestor.this.track();
        }
        count.fetch_add(1, Ordering::Relaxed);
    })
}

fn current_user(store: &Store) -> String {
    match store.reader(&user_acc()) {
        Some(StoreValue::Text(s)) => s.clone(),
        _ => panic!("expected the user text"),
    }
}

fn current_todos_len(store: &Store) -> usize {
    match store.reader(&todos_acc()) {
        Some(StoreValue::List(items)) => items.len(),
        _ => panic!("expected the todos list"),
    }
}

#[test]
fn mutating_field_triggers_effect() {
    init_executor();
    let combined_count = Arc::new(AtomicUsize::new(0));

    let mut store = Store::new(data());
    assert_eq!(current_todos_len(&store), 3);
    assert_eq!(current_user(&store), "Bob");

    let user_trigger = store.get_trigger(&user_acc()).expect("live store");
    let root_trigger = store.get_trigger(&Root).expect("live store");
    let _effect = effect_reading(
        user_trigger,
        vec![root_trigger],
        Arc::clone(&combined_count),
    );
    tick();
    tick();
    store
        .writer(&user_acc(), StoreValue::Text("Greg".to_string()))
        .expect("live store");
    tick();
    store
        .writer(&user_acc(), StoreValue::Text("Carol".to_string()))
        .expect("live store");
    tick();
    let appended = format!("{}{}", current_user(&store), "!!!");
    store
        .writer(&user_acc(), StoreValue::Text(appended))
        .expect("live store");
    tick();
    // the effect reads from the user field, so it runs once per mutation
    assert_eq!(combined_count.load(Ordering::Relaxed), 4);
    assert_eq!(current_user(&store), "Carol!!!");

    let mut todos = vec![
        todo("Create reactive store", true),
        todo("???", false),
        todo("Profit", false),
    ];
    for label in ["Create reactive stores", "???", "Profit!"] {
        todos.push(todo(label, false));
        let next: Vec<StoreValue> = todos
            .iter()
            .map(|t| match t {
                StoreValue::Record(fields) => StoreValue::Record(
                    fields
                        .iter()
                        .map(|f| match f {
                            StoreValue::Text(s) => StoreValue::Text(s.clone()),
                            StoreValue::Bool(b) => StoreValue::Bool(*b),
                            _ => panic!("todo fields are leaves"),
                        })
                        .collect(),
                ),
                _ => panic!("todos are records"),
            })
            .collect();
        store.writer(&todos_acc(), StoreValue::List(next)).expect("live store");
        tick();
    }
    // the effect does not read from the todos field, so the count stays
    assert_eq!(combined_count.load(Ordering::Relaxed), 4);
    assert_eq!(current_todos_len(&store), 6);
}

#[test]
fn other_field_does_not_notify() {
    init_executor();
    let combined_count = Arc::new(AtomicUsize::new(0));

    let mut store = Store::new(data());
    let todos_trigger = store.get_trigger(&todos_acc()).expect("live store");
    let root_trigger = store.get_trigger(&Root).expect("live store");
    let _effect = effect_reading(
        todos_trigger,
        vec![root_trigger],
        Arc::clone(&combined_count),
    );
    tick();
    tick();
    store
        .writer(&user_acc(), StoreValue::Text("Greg".to_string()))
        .expect("live store");
    tick();
    store
        .writer(&user_acc(), StoreValue::Text("Carol".to_string()))
        .expect("live store");
    tick();
    let appended = format!("{}{}", current_user(&store), "!!!");
    store
        .writer(&user_acc(), StoreValue::Text(appended))
        .expect("live store");
    tick();
    // the effect reads only from the todos field, which never changed
    assert_eq!(combined_count.load(Ordering::Relaxed), 1);
}

#[test]
fn iterator_tracks_the_field() {
    init_executor();
    let combined_count = Arc::new(AtomicUsize::new(0));

    let mut store = Store::new(data());
    // subscribe exactly as iteration does: the collection's own pair
    let todos_trigger = store.get_trigger(&todos_acc()).expect("live store");
    let _effect = RenderEffect::new({
        let combined_count = Arc::clone(&combined_count);
        move |_prev: Option<()>| {
            todos_trigger.this.track();
            todos_trigger.children.track();
            combined_count.fetch_add(1, Ordering::Relaxed);
        }
    });
    tick();
    assert_eq!(combined_count.load(Ordering::Relaxed), 1);
    store
        .writer(
            &todos_acc(),
            StoreValue::List(vec![
                todo("Create reactive store", true),
                todo("???", false),
                todo("Profit", false),
                todo("Create reactive store?", false),
            ]),
        )
        .expect("live store");
    tick();
    // a push to the collection re-runs the iterating subscriber
    assert_eq!(combined_count.load(Ordering::Relaxed), 2);
    assert_eq!(current_todos_len(&store), 4);

    store
        .writer(&user_acc(), StoreValue::Text("Greg".to_string()))
        .expect("live store");
    tick();
    // a mutation on a disjoint path does not
    assert_eq!(combined_count.load(Ordering::Relaxed), 2);
}

#[test]
fn patching_only_notifies_changed_field() {
    init_executor();
    let combined_count = Arc::new(AtomicUsize::new(0));

    let mut store = Store::new(StoreValue::Record(vec![
        StoreValue::Text("Alice".to_string()),
        StoreValue::List(vec![]),
    ]));
    let todos_trigger = store.get_trigger(&todos_acc()).expect("live store");
    let root_trigger = store.get_trigger(&Root).expect("live store");
    let _effect = effect_reading(
        todos_trigger,
        vec![root_trigger],
        Arc::clone(&combined_count),
    );
    tick();
    tick();
    store
        .patch(StoreValue::Record(vec![
            StoreValue::Text("Bob".to_string()),
            StoreValue::List(vec![]),
        ]))
        .expect("live store");
    tick();
    store
        .patch(StoreValue::Record(vec![
            StoreValue::Text("Carol".to_string()),
            StoreValue::List(vec![]),
        ]))
        .expect("live store");
    tick();
    // only the user differed, so the todos reader never re-ran
    assert_eq!(combined_count.load(Ordering::Relaxed), 1);

    store
        .patch(StoreValue::Record(vec![
            StoreValue::Text("Carol".to_string()),
            StoreValue::List(vec![todo("First Todo", false)]),
        ]))
        .expect("live store");
    tick();
    // this patch grew the todos list, so it re-ran exactly once
    assert_eq!(combined_count.load(Ordering::Relaxed), 2);
    assert_eq!(current_user(&store), "Carol");
    assert_eq!(current_todos_len(&store), 1);
}

#[test]
fn patch_to_identical_value_notifies_nothing() {
    init_executor();
    let count = Arc::new(AtomicUsize::new(0));
    let mut store = Store::new(data());
    let user_trigger = store.get_trigger(&user_acc()).expect("live store");
    let todos_trigger = store.get_trigger(&todos_acc()).expect("live store");
    let root_trigger = store.get_trigger(&Root).expect("live store");
    let _effect = RenderEffect::new({
        let count = Arc::clone(&count);
        move |_prev: Option<()>| {
            user_trigger.this.track();
            user_trigger.children.track();
            todos_trigger.this.track();
            todos_trigger.children.track();
            root_trigger.this.track();
            root_trigger.children.track();
            count.fetch_add(1, Ordering::Relaxed);
        }
    });
    tick();
    store.patch(data()).expect("live store");
    tick();
    assert_eq!(count.load(Ordering::Relaxed), 1);
    match store.try_read_untracked() {
        Some(v) => assert!(eq_value(v, &data())),
        None => panic!("store is live"),
    }
}

#[test]
fn equal_paths_share_one_trigger() {
    init_executor();
    let count = Arc::new(AtomicUsize::new(0));
    let mut store = Store::new(data());
    let first = store.get_trigger(&user_acc()).expect("live store");
    let second = store
        .get_trigger(&Subfield::new(Root, StorePathSegment(0)))
        .expect("live store");
    let distinct = store.get_trigger(&todos_acc()).expect("live store");
    let _effect = RenderEffect::new({
        let count = Arc::clone(&count);
        move |_prev: Option<()>| {
            first.this.track();
            count.fetch_add(1, Ordering::Relaxed);
        }
    });
    tick();
    // the second handle resolved the same path, so it names the same trigger
    second.this.notify();
    tick();
    assert_eq!(count.load(Ordering::Relaxed), 2);
    // a handle for a different path does not
    distinct.this.notify();
    tick();
    assert_eq!(count.load(Ordering::Relaxed), 2);
}

#[test]
fn duplicate_names_the_same_trigger() {
    init_executor();
    let count = Arc::new(AtomicUsize::new(0));
    let mut store = Store::new(data());
    let original = store.get_trigger(&user_acc()).expect("live store");
    let copy = original.duplicate();
    let _effect = RenderEffect::new({
        let count = Arc::clone(&count);
        move |_prev: Option<()>| {
            copy.this.track();
            count.fetch_add(1, Ordering::Relaxed);
        }
    });
    tick();
    original.this.notify();
    tick();
    assert_eq!(count.load(Ordering::Relaxed), 2);
}

#[test]
fn writes_notify_ancestors_children() {
    init_executor();
    let count = Arc::new(AtomicUsize::new(0));
    let mut store = Store::new(data());
    let todos_trigger = store.get_trigger(&todos_acc()).expect("live store");
    let _effect = RenderEffect::new({
        let count = Arc::clone(&count);
        move |_prev: Option<()>| {
            todos_trigger.children.track();
            count.fetch_add(1, Ordering::Relaxed);
        }
    });
    tick();
    // a write to one element's label notifies the collection's subtree trigger
    let label = Subfield::new(
        reactive_stores::iter::AtIndex::new(todos_acc(), 0),
        StorePathSegment(0),
    );
    store
        .writer(&label, StoreValue::Text("Ship reactive store".to_string()))
        .expect("live store");
    tick();
    assert_eq!(count.load(Ordering::Relaxed), 2);
    match store.reader(&label) {
        Some(StoreValue::Text(s)) => assert_eq!(s, "Ship reactive store"),
        _ => panic!("expected the replaced label"),
    }
}

#[test]
fn notify_and_track_methods_connect() {
    init_executor();
    let count = Arc::new(AtomicUsize::new(0));
    let mut store = Store::new(data());
    let user_trigger = store.get_trigger(&user_acc()).expect("live store");
    let _effect = RenderEffect::new({
        let count = Arc::clone(&count);
        move |_prev: Option<()>| {
            user_trigger.this.track();
            count.fetch_add(1, Ordering::Relaxed);
        }
    });
    tick();
    store.notify_field(&user_acc());
    tick();
    assert_eq!(count.load(Ordering::Relaxed), 2);
    // an untracked write stays silent
    store
        .write_untracked(&user_acc(), StoreValue::Text("Greg".to_string()))
        .expect("live store");
    tick();
    assert_eq!(count.load(Ordering::Relaxed), 2);
    assert_eq!(current_user(&store), "Greg");
}

#[test]
fn disposed_store_answers_absence() {
    let mut store = Store::new(data());
    assert!(!store.is_disposed());
    store.dispose();
    assert!(store.is_disposed());
    assert!(store.try_read_untracked().is_none());
    assert!(store.reader(&user_acc()).is_none());
    assert!(store
        .writer(&user_acc(), StoreValue::Text("Greg".to_string()))
        .is_none());
    assert!(store
        .write_untracked(&user_acc(), StoreValue::Text("Greg".to_string()))
        .is_none());
    assert!(store.get_trigger(&user_acc()).is_none());
    assert!(store.patch(data()).is_none());
    assert!(store.read(&user_acc()).is_none());
}

#[test]
fn new_local_matches_new() {
    let store = Store::new_local(data());
    assert!(!store.is_disposed());
    match store.try_read_untracked() {
        Some(v) => assert!(eq_value(v, &data())),
        None => panic!("store is live"),
    }
}

#[test]
fn tracked_read_subscribes_like_a_reader() {
    init_executor();
    let count = Arc::new(AtomicUsize::new(0));
    let mut store = Store::new(data());
    let user_trigger = store.get_trigger(&user_acc()).expect("live store");
    let root_trigger = store.get_trigger(&Root).expect("live store");
    let _effect = effect_reading(user_trigger, vec![root_trigger], Arc::clone(&count));
    tick();
    // replacing the whole store re-runs a reader of any field under it
    store
        .writer(&Root, data())
        .expect("live store");
    tick();
    assert_eq!(count.load(Ordering::Relaxed), 2);
}

#[test]
fn root_notify_reaches_field_readers() {
    init_executor();
    let count = Arc::new(AtomicUsize::new(0));
    let mut store = Store::new(data());
    let user_trigger = store.get_trigger(&user_acc()).expect("live store");
    let root_trigger = store.get_trigger(&Root).expect("live store");
    let _effect = effect_reading(user_trigger, vec![root_trigger], Arc::clone(&count));
    tick();
    // replacing the whole store from outside fires the root trigger, which
    // every field reader subscribed to through its ancestor chain
    store.notify();
    tick();
    assert_eq!(count.load(Ordering::Relaxed), 2);
}
