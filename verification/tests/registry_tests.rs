use bridge_search::errors::BridgeError;
use bridge_search::registry::{make_index_name, Registry};

#[test]
fn index_names_carry_the_dimension() {
    assert_eq!(make_index_name("test", 768), "test_d768");
    assert_eq!(make_index_name("foo", 4), "foo_d4");
    assert_eq!(make_index_name("a", 1), "a_d1");
}

#[test]
fn create_registers_under_the_full_name() {
    let mut reg = Registry::new();
    let name = reg.create("docs", 4, 10).unwrap();
    assert_eq!(name, "docs_d4");
    assert_eq!(reg.list(), vec!["docs_d4".to_string()]);
    assert_eq!(reg.entries[0].dimension, 4);
    assert_eq!(reg.entries[0].k, 10);
    assert_eq!(reg.entries[0].next_id, 0);
    assert_eq!(reg.get("docs_d4"), Some(0));
    assert_eq!(reg.get("docs"), None);
}

#[test]
fn create_conflicts_on_an_existing_name() {
    let mut reg = Registry::new();
    reg.create("docs", 4, 10).unwrap();
    let err = reg.create("docs", 4, 20).unwrap_err();
    assert!(matches!(err, BridgeError::Conflict(_)));
    assert_eq!(reg.entries.len(), 1);
    // The same base name with another dimension is a different index.
    reg.create("docs", 8, 10).unwrap();
    assert_eq!(reg.entries.len(), 2);
}

#[test]
fn ambiguous_base_name_until_the_full_name_is_given() {
    let mut reg = Registry::new();
    reg.create("foo", 4, 10).unwrap();
    reg.create("foo", 8, 10).unwrap();

    let err = reg.resolve("foo").unwrap_err();
    assert!(matches!(err, BridgeError::Ambiguous(_)));

    let i = reg.resolve("foo_d4").unwrap();
    assert_eq!(reg.entries[i].name, "foo_d4");
    let j = reg.resolve("foo_d8").unwrap();
    assert_eq!(reg.entries[j].name, "foo_d8");
}

#[test]
fn unknown_names_are_not_found() {
    let mut reg = Registry::new();
    reg.create("foo", 4, 10).unwrap();
    let err = reg.resolve("bar").unwrap_err();
    assert!(matches!(err, BridgeError::NotFound(_)));
}

#[test]
fn a_single_index_resolves_by_base_name() {
    let mut reg = Registry::new();
    reg.create("solo", 16, 10).unwrap();
    let i = reg.resolve("solo").unwrap();
    assert_eq!(reg.entries[i].name, "solo_d16");
}

#[test]
fn remove_frees_the_name() {
    let mut reg = Registry::new();
    reg.create("foo", 4, 10).unwrap();
    reg.create("foo", 8, 10).unwrap();

    let removed = reg.remove("foo_d4").unwrap();
    assert_eq!(removed.name, "foo_d4");
    assert_eq!(reg.entries.len(), 1);

    // With one index left, the base name resolves again.
    let i = reg.resolve("foo").unwrap();
    assert_eq!(reg.entries[i].name, "foo_d8");

    let err = reg.remove("foo_d4").unwrap_err();
    assert!(matches!(err, BridgeError::NotFound(_)));
}

#[test]
fn error_messages_are_exposed() {
    let reg = Registry::new();
    let err = reg.resolve("nothing").unwrap_err();
    assert!(!err.message().is_empty());
}
