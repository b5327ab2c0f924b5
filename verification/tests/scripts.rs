use q3::{Id, List, Q3Components, Q3Error, QStore, Query};

fn store_with_list(value: &str, separator: &str, script: Option<&str>) -> QStore {
    let mut store = QStore::new();
    store.insert(Q3Components::List(List::Raw {
        id: Id("l".to_string()),
        separator: separator.to_string(),
        value: value.to_string(),
        script: script.map(|s| s.to_string()),
    }));
    store.insert(Q3Components::Query(Query::new("q", "got #{l}").unwrap()));
    store
}

#[test]
fn list_without_script_resolves_to_raw_value() {
    let mut store = store_with_list("alpha,beta", ",", None);
    store.expand().unwrap();
    assert_eq!(store.get("q").unwrap().to_text(), "got alpha,beta");
    assert_eq!(store.get("l").unwrap().to_text(), "alpha,beta");
}

#[test]
fn list_script_joins_elements() {
    let mut store = store_with_list("a,b,,c", ",", Some("value = ' OR '.join(value)"));
    store.expand().unwrap();
    assert_eq!(store.get("q").unwrap().to_text(), "got a OR b OR c");
}

#[test]
fn list_script_failure_aborts_expansion() {
    let mut store = store_with_list("a,b", ",", Some("raise Exception('boom')"));
    match store.expand() {
        Err(Q3Error::PythonScriptFailed(msg)) => assert!(msg.contains("boom")),
        other => panic!("expected a script failure, got {:?}", other),
    }
}

#[test]
fn list_script_must_keep_value_bound() {
    let mut store = store_with_list("a,b", ",", Some("del value"));
    match store.expand() {
        Err(Q3Error::PythonScriptVariableNotAssigned) => (),
        other => panic!("expected the missing binding error, got {:?}", other),
    }
}

#[test]
fn generator_script_produces_value() {
    let mut store = QStore::new();
    store.insert(Q3Components::Generator(q3::Generator {
        id: Id("g".to_string()),
        script: "value = 'made'".to_string(),
        value: None,
    }));
    store.insert(Q3Components::Query(Query::new("q", "<#{g}>").unwrap()));
    store.expand().unwrap();
    assert_eq!(store.get("q").unwrap().to_text(), "<made>");
}

#[test]
fn generator_script_without_binding_fails() {
    let mut store = QStore::new();
    store.insert(Q3Components::Generator(q3::Generator {
        id: Id("g".to_string()),
        script: "x = 1".to_string(),
        value: None,
    }));
    match store.expand() {
        Err(Q3Error::PythonScriptVariableNotAssigned) => (),
        other => panic!("expected the missing binding error, got {:?}", other),
    }
}

#[test]
fn generator_value_is_not_recomputed() {
    let mut store = QStore::new();
    store.insert(Q3Components::Generator(q3::Generator {
        id: Id("g".to_string()),
        script: "value = 'fresh'".to_string(),
        value: Some("kept".to_string()),
    }));
    store.insert(Q3Components::Query(Query::new("q", "#{g}").unwrap()));
    store.expand().unwrap();
    assert_eq!(store.get("q").unwrap().to_text(), "kept");
}
