use q3::{
    Config, ConfigElement, ConfigEntry, GeneratorConfig, ListConfig, Meta, PathOrValue,
    QStore, QueryConfig,
};

#[test]
fn a_config_builds_a_store_in_order() {
    let config = Config(vec![
        ConfigEntry {
            name: "greeting".to_string(),
            element: ConfigElement::Query(QueryConfig { value: "hello #{who}".to_string() }),
        },
        ConfigEntry {
            name: "who".to_string(),
            element: ConfigElement::List(ListConfig {
                data: PathOrValue::Value("world".to_string()),
                separator: ",".to_string(),
                script: None,
            }),
        },
    ]);
    let mut store = QStore::from_config(config).unwrap();
    store.expand().unwrap();
    assert_eq!(store.to_text(), "greeting : hello world\nwho : world");
}

#[test]
fn a_config_generator_starts_unresolved() {
    let config = Config(vec![ConfigEntry {
        name: "gen".to_string(),
        element: ConfigElement::Generator(GeneratorConfig { script: "value = 'v'".to_string() }),
    }]);
    let store = QStore::from_config(config).unwrap();
    assert_eq!(store.get("gen").unwrap().to_text(), "");
}

#[test]
fn meta_reports_changes_between_resets() {
    let mut meta = Meta::new("some.q3".to_string(), None);
    assert!(meta.has_changed(Some(10)));
    meta.reset();
    assert!(!meta.has_changed(Some(10)));
    assert!(!meta.has_changed(Some(9)));
    assert!(meta.has_changed(Some(11)));
    assert!(meta.has_changed(None));
    meta.reset();
    assert!(!meta.has_changed(None));
    assert_eq!(meta.path, "some.q3");
}

#[test]
fn meta_first_stamp_counts_as_change() {
    let mut meta = Meta::new("f".to_string(), Some(5));
    assert!(!meta.has_changed(Some(5)));
    assert!(meta.has_changed(Some(6)));
}
