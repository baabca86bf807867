use reactive_stores::iter::{AtIndex, StoreFieldIterator};
use reactive_stores::path::{StorePath, StorePathSegment};
use reactive_stores::patch::diff_into;
use reactive_stores::store_field::{
    read_tracking_plan, write_notification_plan, Root, StoreField, Subfield, TriggerKind,
};
use reactive_stores::value::{eq_value, node_ref, with_node, StoreValue};
use reactive_stores::Store;

fn path(segments: &[usize]) -> StorePath {
    StorePath::from_segments(segments.iter().map(|s| StorePathSegment(*s)).collect())
}

fn segments_of(p: &StorePath) -> Vec<usize> {
    p.segments.iter().map(|s| s.0).collect()
}

fn todo(label: &str, completed: bool) -> StoreValue {
    StoreValue::Record(vec![
        StoreValue::Text(label.to_string()),
        StoreValue::Bool(completed),
    ])
}

fn data() -> StoreValue {
    StoreValue::Record(vec![
        StoreValue::Text("Bob".to_string()),
        StoreValue::List(vec![
            todo("Create reactive store", true),
            todo("???", false),
            todo("Profit", false),
        ]),
    ])
}

#[test]
fn paths_compare_by_segments() {
    let a = path(&[1, 0, 2]);
    let b = path(&[1, 0, 2]);
    let c = path(&[1, 0]);
    let d = path(&[1, 0, 3]);
    assert!(a.eq_path(&b));
    assert!(!a.eq_path(&c));
    assert!(!a.eq_path(&d));
    assert!(a.duplicate().eq_path(&a));
    assert!(c.eq_path(&a.prefix(2)));
    assert_eq!(a.len(), 3);
}

#[test]
fn accessors_compose_paths() {
    let user = Subfield::new(Root, StorePathSegment(0));
    assert_eq!(segments_of(&user.path()), vec![0]);
    let todos = Subfield::new(Root, StorePathSegment(1));
    let first = todos.at_unkeyed(0);
    assert_eq!(segments_of(&first.path()), vec![1, 0]);
    let label = Subfield::new(AtIndex::new(todos, 2), StorePathSegment(0));
    assert_eq!(segments_of(&label.path()), vec![1, 2, 0]);
}

#[test]
fn node_ref_walks_the_tree() {
    let v = data();
    match node_ref(&v, &path(&[0])) {
        Some(StoreValue::Text(s)) => assert_eq!(s, "Bob"),
        _ => panic!("expected the user text"),
    }
    match node_ref(&v, &path(&[1, 1, 0])) {
        Some(StoreValue::Text(s)) => assert_eq!(s, "???"),
        _ => panic!("expected the second label"),
    }
    assert!(node_ref(&v, &path(&[2])).is_none());
    assert!(node_ref(&v, &path(&[1, 3])).is_none());
    assert!(node_ref(&v, &path(&[0, 0])).is_none());
}

#[test]
fn with_node_replaces_one_subtree() {
    let v = data();
    let v = with_node(v, &path(&[0]), 0, StoreValue::Text("Greg".to_string()));
    match node_ref(&v, &path(&[0])) {
        Some(StoreValue::Text(s)) => assert_eq!(s, "Greg"),
        _ => panic!("expected the replaced user"),
    }
    match node_ref(&v, &path(&[1, 0, 0])) {
        Some(StoreValue::Text(s)) => assert_eq!(s, "Create reactive store"),
        _ => panic!("expected the untouched first label"),
    }
    let v = with_node(v, &path(&[1, 2, 1]), 0, StoreValue::Bool(true));
    match node_ref(&v, &path(&[1, 2, 1])) {
        Some(StoreValue::Bool(b)) => assert!(*b),
        _ => panic!("expected the completed flag"),
    }
}

#[test]
fn eq_value_is_structural() {
    assert!(eq_value(&data(), &data()));
    assert!(!eq_value(&data(), &todo("Bob", true)));
    let mut other = data();
    other = with_node(other, &path(&[1, 1, 1]), 0, StoreValue::Bool(true));
    assert!(!eq_value(&data(), &other));
    assert!(!eq_value(
        &StoreValue::List(vec![]),
        &StoreValue::Record(vec![])
    ));
    assert!(!eq_value(
        &StoreValue::List(vec![StoreValue::Bool(false)]),
        &StoreValue::List(vec![])
    ));
}

#[test]
fn write_plan_notifies_node_and_every_prefix() {
    let plan = write_notification_plan(&path(&[1, 0]));
    let got: Vec<(Vec<usize>, TriggerKind)> =
        plan.iter().map(|(p, k)| (segments_of(p), *k)).collect();
    assert_eq!(
        got,
        vec![
            (vec![1, 0], TriggerKind::This),
            (vec![], TriggerKind::Children),
            (vec![1], TriggerKind::Children),
            (vec![1, 0], TriggerKind::Children),
        ]
    );
}

#[test]
fn read_plan_tracks_node_and_ancestors() {
    let plan = read_tracking_plan(&path(&[1, 0]));
    let got: Vec<(Vec<usize>, TriggerKind)> =
        plan.iter().map(|(p, k)| (segments_of(p), *k)).collect();
    assert_eq!(
        got,
        vec![
            (vec![1, 0], TriggerKind::This),
            (vec![1, 0], TriggerKind::Children),
            (vec![], TriggerKind::This),
            (vec![1], TriggerKind::This),
        ]
    );
}

#[test]
fn diff_lists_only_changed_paths() {
    let old = StoreValue::Record(vec![
        StoreValue::Text("Alice".to_string()),
        StoreValue::List(vec![]),
    ]);
    let new = StoreValue::Record(vec![
        StoreValue::Text("Bob".to_string()),
        StoreValue::List(vec![]),
    ]);
    let mut out: Vec<StorePath> = Vec::new();
    diff_into(&old, &new, &StorePath::root(), &mut out);
    let got: Vec<Vec<usize>> = out.iter().map(segments_of).collect();
    assert_eq!(got, vec![vec![0]]);

    let mut out: Vec<StorePath> = Vec::new();
    diff_into(&new, &new, &StorePath::root(), &mut out);
    assert!(out.is_empty());

    let grown = StoreValue::Record(vec![
        StoreValue::Text("Bob".to_string()),
        StoreValue::List(vec![todo("First Todo", false)]),
    ]);
    let mut out: Vec<StorePath> = Vec::new();
    diff_into(&new, &grown, &StorePath::root(), &mut out);
    let got: Vec<Vec<usize>> = out.iter().map(segments_of).collect();
    assert_eq!(got, vec![vec![1]]);
}

#[test]
fn diff_descends_into_elements() {
    let old = data();
    let mut new = data();
    new = with_node(new, &path(&[1, 1, 1]), 0, StoreValue::Bool(true));
    new = with_node(new, &path(&[0]), 0, StoreValue::Text("Greg".to_string()));
    let mut out: Vec<StorePath> = Vec::new();
    diff_into(&old, &new, &StorePath::root(), &mut out);
    let got: Vec<Vec<usize>> = out.iter().map(segments_of).collect();
    assert_eq!(got, vec![vec![0], vec![1, 1, 1]]);
}

#[test]
fn iterator_yields_every_index_forward() {
    let mut store = Store::new(data());
    let todos = Subfield::new(Root, StorePathSegment(1));
    let mut iter = todos.iter_unkeyed(&mut store);
    let mut seen: Vec<usize> = Vec::new();
    while let Some(field) = iter.next() {
        seen.push(field.index);
    }
    assert_eq!(seen, vec![0, 1, 2]);
    assert!(iter.next().is_none());
    assert!(iter.next_back().is_none());
}

#[test]
fn alternating_ends_yield_each_index_once() {
    let mut store = Store::new(data());
    let todos = Subfield::new(Root, StorePathSegment(1));
    let mut iter = todos.iter_unkeyed(&mut store);
    let a = iter.next().expect("front of three").index;
    let b = iter.next_back().expect("back of three").index;
    let c = iter.next().expect("middle of three").index;
    assert!(iter.next().is_none());
    assert!(iter.next_back().is_none());
    assert_eq!(vec![a, b, c], vec![0, 2, 1]);
}

#[test]
fn iterator_on_disposed_store_is_empty() {
    let mut store = Store::new(data());
    store.dispose();
    let todos = Subfield::new(Root, StorePathSegment(1));
    let mut iter = todos.iter_unkeyed(&mut store);
    assert!(iter.next().is_none());
}

#[test]
fn iterator_elements_read_back_through_store() {
    let mut store = Store::new(data());
    let todos = Subfield::new(Root, StorePathSegment(1));
    let mut iter = todos.iter_unkeyed(&mut store);
    let mut labels: Vec<String> = Vec::new();
    while let Some(field) = iter.next() {
        let label = Subfield::new(field, StorePathSegment(0));
        match store.reader(&label) {
            Some(StoreValue::Text(s)) => labels.push(s.clone()),
            _ => panic!("expected a label"),
        }
    }
    assert_eq!(labels, vec!["Create reactive store", "???", "Profit"]);
}
