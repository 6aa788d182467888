use entity_editor::status_key::StatusKeyMode;

#[test]
fn hints_of_each_mode() {
    assert_eq!(StatusKeyMode::Auto.as_hint(), "CharacterUnique");
    assert_eq!(StatusKeyMode::Unique.as_hint(), "Unique");
    assert_eq!(StatusKeyMode::CharacterUnique.as_hint(), "CharacterUnique");
    assert_eq!(StatusKeyMode::Custom("Id".to_string()).as_hint(), "Id");
}

#[test]
fn labels_of_each_mode() {
    assert_eq!(StatusKeyMode::Auto.label(), "Auto (alias-like)");
    assert_eq!(StatusKeyMode::Unique.label(), "Unique");
    assert_eq!(StatusKeyMode::CharacterUnique.label(), "CharacterUnique");
    assert_eq!(StatusKeyMode::Custom("Id".to_string()).label(), "Custom: Id");
}
