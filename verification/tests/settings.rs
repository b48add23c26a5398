use amina_core::settings::{
    ConfigEntry, ConfigValue, Property, Settings, SettingsError, SettingsManager,
};

#[test]
fn property_reads_back_its_writes() {
    let mut property: Property<String> = Property::new("a".to_string());
    assert_eq!(property.get(), "a");
    property.set("b".to_string());
    assert_eq!(property.get(), "b");
}

#[test]
fn store_reads_empty_for_unwritten_keys() {
    let mut store = Settings::create_empty();
    assert_eq!(store.get_string("main.collection_dir").get(), "");
    store.set_string("main.collection_dir", "some_dir".to_string());
    assert_eq!(store.get_string("main.collection_dir").get(), "some_dir");
    assert_eq!(
        store.get_properties(),
        vec!["main.collection_dir".to_string()]
    );
}

fn sample_tree() -> Vec<ConfigEntry> {
    vec![ConfigEntry {
        name: "main".to_string(),
        value: ConfigValue::Section(vec![ConfigEntry {
            name: "collection_dir".to_string(),
            value: ConfigValue::Text("some_dir".to_string()),
        }]),
    }]
}

#[test]
fn store_loads_dotted_keys_from_a_tree() {
    let mut store = Settings::init_from_tree(&sample_tree());
    assert_eq!(store.get_string("main.collection_dir").get(), "some_dir");
    assert_eq!(
        store.get_properties(),
        vec!["main.collection_dir".to_string()]
    );
}

#[test]
fn later_tree_value_wins_for_a_repeated_key() {
    let tree = vec![
        ConfigEntry {
            name: "a".to_string(),
            value: ConfigValue::Text("first".to_string()),
        },
        ConfigEntry {
            name: "a".to_string(),
            value: ConfigValue::Text("second".to_string()),
        },
    ];
    let mut store = Settings::init_from_tree(&tree);
    assert_eq!(store.get_string("a").get(), "second");
}

#[test]
fn flat_pairs_round_trip_through_a_tree() {
    let mut store = Settings::create_empty();
    store.set_string("main.collection_dir", "some_dir".to_string());

    // nest the flat pairs the way a persistence collaborator would
    let pairs = store.to_pairs();
    assert_eq!(
        pairs,
        vec![("main.collection_dir".to_string(), "some_dir".to_string())]
    );
    let parts: Vec<&str> = pairs[0].0.split('.').collect();
    let tree = vec![ConfigEntry {
        name: parts[0].to_string(),
        value: ConfigValue::Section(vec![ConfigEntry {
            name: parts[1].to_string(),
            value: ConfigValue::Text(pairs[0].1.clone()),
        }]),
    }];

    let mut reloaded = Settings::init_from_tree(&tree);
    assert_eq!(reloaded.get_string("main.collection_dir").get(), "some_dir");
}

#[test]
fn manager_serves_values_from_the_first_store() {
    let mut manager = SettingsManager::new();
    manager.register_settings(Settings::create_empty());
    manager.set_string_value("ui.theme.name", "dark".to_string());
    assert_eq!(manager.get_string_value("ui.theme.name"), "dark");
    assert_eq!(manager.get_string_value("ui.theme.accent"), "");
}

#[test]
fn manager_describes_keys_as_tabs_sections_properties() {
    let mut manager = SettingsManager::new();
    let mut store = Settings::create_empty();
    store.set_string("ui.theme.name", "dark".to_string());
    store.set_string("ui.layout.columns", "3".to_string());
    store.set_string("audio.output.device", "default".to_string());
    manager.register_settings(store);

    manager.regenerate_settings_description();

    assert_eq!(
        manager.get_tabs(),
        vec!["ui".to_string(), "audio".to_string()]
    );
    let tab = manager.get_tab("ui").unwrap();
    assert_eq!(tab.name, "ui");
    assert_eq!(tab.sections.len(), 2);
    assert_eq!(tab.sections[0].name, "theme");
    assert_eq!(tab.sections[0].properties[0].name, "ui.theme.name");
    assert_eq!(
        manager.get_tab("video").err(),
        Some(SettingsError::UnknownTab)
    );
}
