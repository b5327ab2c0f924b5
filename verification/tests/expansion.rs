use q3::{Q3Ast, Q3Components, QStore, Query};

#[test]
fn test_tokens_expansion() {
    let mut store = QStore::new();

    let q1 = Query::new("q1", "lorem ipsum").unwrap();
    let q2 = Query::new("q2", "dolor #{q1} #{q1}").unwrap();

    store.insert(Q3Components::Query(q1));
    store.insert(Q3Components::Query(q2));

    match store.get("q2") {
        Some(Q3Components::Query(Query::Raw { mut tokens, .. })) => {
            store.expand_tokens(&mut tokens).unwrap();

            assert_eq!(
                tokens.to_vec(),
                vec![
                    Q3Ast::Other("dolor ".into()),
                    Q3Ast::Other("lorem ipsum".into()),
                    Q3Ast::Other(" ".into()),
                    Q3Ast::Other("lorem ipsum".into()),
                ]
            )
        }
        _ => (),
    }
}

#[test]
fn test_query_expansion() {
    let mut store = QStore::new();

    let q1 = Query::new("q1", "lorem ipsum").unwrap();
    let q2 = Query::new("q2", "dolor #{q1}").unwrap();

    store.insert(Q3Components::Query(q1));
    store.insert(Q3Components::Query(q2));

    let mut expected_store = QStore::new();

    let expected_q1 = Query::new("q1", "lorem ipsum").unwrap();
    let expected_q2 = Query::new("q2", "dolor lorem ipsum").unwrap();

    expected_store.insert(Q3Components::Query(expected_q1));
    expected_store.insert(Q3Components::Query(expected_q2));

    store.expand().unwrap();

    assert_eq!(
        store.get("q2").unwrap().to_text(),
        expected_store.get("q2").unwrap().to_text()
    )
}

#[test]
fn test_query_multi_level() {
    let mut store = QStore::new();

    let q1 = Query::new("q1", "q1").unwrap();
    let q2 = Query::new("q2", "q2 #{q1}").unwrap();
    let q3 = Query::new("q3", "q3 #{q1} #{q2}").unwrap();

    store.insert(Q3Components::Query(q1));
    store.insert(Q3Components::Query(q2));
    store.insert(Q3Components::Query(q3));

    let mut expected_store = QStore::new();

    let expected_q1 = Query::new("q1", "q1").unwrap();
    let expected_q2 = Query::new("q2", "q2 q1").unwrap();
    let expected_q3 = Query::new("q3", "q3 q1 q2 q1").unwrap();

    expected_store.insert(Q3Components::Query(expected_q1));
    expected_store.insert(Q3Components::Query(expected_q2));
    expected_store.insert(Q3Components::Query(expected_q3));

    store.expand().unwrap();

    assert_eq!(
        store.get("q2").unwrap().to_text(),
        expected_store.get("q2").unwrap().to_text()
    );

    store.expand().unwrap();

    assert_eq!(
        store.get("q3").unwrap().to_text(),
        expected_store.get("q3").unwrap().to_text()
    )
}

#[test]
fn test_query_expansion_cycle() {
    let mut store = QStore::new();

    let q1 = Query::new("q1", "lorem #{q2} ipsum").unwrap();
    let q2 = Query::new("q2", "dolor #{q1}").unwrap();

    store.insert(Q3Components::Query(q1));
    store.insert(Q3Components::Query(q2));

    assert!(store.expand().is_err())
}
