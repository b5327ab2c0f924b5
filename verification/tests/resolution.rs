use q3::{Q3Components, Q3Error, QStore, Query};

fn store_of(entries: &[(&str, &str)]) -> QStore {
    let mut store = QStore::new();
    for (id, text) in entries {
        store.insert(Q3Components::Query(Query::new(id, text).unwrap()));
    }
    store
}

#[test]
fn two_queries_in_a_cycle_fail() {
    let mut store = store_of(&[("q1", "#{q2}"), ("q2", "#{q1}")]);
    match store.expand() {
        Err(Q3Error::FailedToExpand(_id)) => (),
        other => panic!("expected the cycle error, got {:?}", other),
    }
}

#[test]
fn a_query_referencing_itself_fails() {
    let mut store = store_of(&[("q1", "#{q1}")]);
    match store.expand() {
        Err(Q3Error::FailedToExpand(id)) => assert_eq!(id.0, "q1"),
        other => panic!("expected the cycle error, got {:?}", other),
    }
}

#[test]
fn transitive_references_substitute_through() {
    let mut store = store_of(&[("q1", "q1"), ("q2", "q2 #{q1}"), ("q3", "q3 #{q1} #{q2}")]);
    store.expand().unwrap();
    assert_eq!(store.get("q1").unwrap().to_text(), "q1");
    assert_eq!(store.get("q2").unwrap().to_text(), "q2 q1");
    assert_eq!(store.get("q3").unwrap().to_text(), "q3 q1 q2 q1");
}

#[test]
fn a_repeated_reference_substitutes_each_time() {
    let mut store = store_of(&[("q1", "lorem ipsum"), ("q2", "dolor #{q1} #{q1}")]);
    store.expand().unwrap();
    assert_eq!(
        store.get("q2").unwrap().to_text(),
        "dolor lorem ipsum lorem ipsum"
    );
}

#[test]
fn an_unknown_reference_fails_by_name() {
    let mut store = store_of(&[("q1", "#{ghost}")]);
    match store.expand() {
        Err(Q3Error::IdNotFound(name)) => assert_eq!(name, "ghost"),
        other => panic!("expected the missing name error, got {:?}", other),
    }
}

#[test]
fn expanding_twice_changes_nothing() {
    let mut store = store_of(&[("q1", "lorem"), ("q2", "#{q1}!")]);
    store.expand().unwrap();
    let first = store.get("q2").unwrap().to_text();
    store.expand().unwrap();
    assert_eq!(store.get("q2").unwrap().to_text(), first);
    assert_eq!(first, "lorem!");
}

#[test]
fn later_queries_may_reference_earlier_and_vice_versa() {
    let mut store = store_of(&[("a", "#{b}-#{b}"), ("b", "core")]);
    store.expand().unwrap();
    assert_eq!(store.get("a").unwrap().to_text(), "core-core");
}

#[test]
fn store_renders_one_line_per_component() {
    let mut store = store_of(&[("q1", "lorem"), ("q2", "#{q1}!")]);
    store.expand().unwrap();
    assert_eq!(store.to_text(), "q1 : lorem\nq2 : lorem!");
}

#[test]
fn get_raw_keeps_the_source_text() {
    let store = store_of(&[("q1", "#{x} tail")]);
    assert_eq!(store.get_raw("q1").unwrap(), "#{x} tail");
    assert!(store.get_raw("missing").is_none());
}

#[test]
fn insert_replaces_an_existing_id_in_place() {
    let mut store = store_of(&[("a", "one"), ("b", "two")]);
    store.insert(Q3Components::Query(Query::new("a", "three").unwrap()));
    store.expand().unwrap();
    assert_eq!(store.to_text(), "a : three\nb : two");
}

#[test]
fn marks_guard_reentrant_resolution() {
    let mut store = QStore::new();
    store.insert(Q3Components::Query(Query::new("a", "x").unwrap()));
    store.set_failed_expansion(q3::Id("a".to_string())).unwrap();
    match store.set_failed_expansion(q3::Id("a".to_string())) {
        Err(Q3Error::FailedToExpand(id)) => assert_eq!(id.0, "a"),
        other => panic!("expected the cycle error, got {:?}", other),
    }
    store.remove_failed_expansion(&q3::Id("a".to_string()));
    store.set_failed_expansion(q3::Id("a".to_string())).unwrap();
}
