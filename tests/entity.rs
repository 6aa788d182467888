use entity_editor::entity::{CharacterEntity, CharacterEntityContainer, EntityLoadError};
use entity_editor::raw_data::{RawDataCharacterAttackInfo, RawDataCharacterInfo, RawDataCharacterStatusInfo};

fn strings(v: &[&str]) -> Vec<String> {
    v.iter().map(|s| s.to_string()).collect()
}

fn info(unique: u32, name: &str) -> RawDataCharacterInfo {
    RawDataCharacterInfo { unique, name: name.to_string() }
}

fn loaded() -> CharacterEntityContainer {
    let mut c = CharacterEntityContainer::new();
    c.load_info_records(&strings(&["CharacterUnique", "NAME"]), &vec![info(1, "Alice"), info(2, "Bob")]);
    c
}

#[test]
fn new_container_is_empty() {
    let c = CharacterEntityContainer::new();
    assert!(c.get_entity(1).is_none());
    assert_eq!(c.info_path(), "");
    assert!(c.status_key_column_override().is_none());
    assert_eq!(c.labels().info_name, "");
}

#[test]
fn paths_and_override_are_kept() {
    let mut c = CharacterEntityContainer::new();
    c.set_paths("i.csv".to_string(), "s.csv".to_string(), "a.txt".to_string());
    c.set_status_key_column_override("Unique".to_string());
    assert_eq!(c.info_path(), "i.csv");
    assert_eq!(c.status_path(), "s.csv");
    assert_eq!(c.attack_path(), "a.txt");
    assert_eq!(c.status_key_column_override(), Some("Unique"));
}

#[test]
fn info_records_make_fresh_entities() {
    let c = loaded();
    assert_eq!(c.labels().info_name, "NAME");
    let e = c.get_entity(2).unwrap();
    assert_eq!(e.character_info.name, "Bob");
    assert_eq!(e.character_status_info, RawDataCharacterStatusInfo::new_zero());
    assert_eq!(e.character_attack_info, RawDataCharacterAttackInfo::new_zero());
}

#[test]
fn add_update_and_remove() {
    let mut c = loaded();
    c.add_entity(CharacterEntity {
        unique: 5,
        character_info: info(5, "Eve"),
        character_status_info: RawDataCharacterStatusInfo::new_zero(),
        character_attack_info: RawDataCharacterAttackInfo::new_zero(),
    });
    let s = RawDataCharacterStatusInfo { unique: 5, health: 1, mana: 2, stamina: 3 };
    c.update_character_entity_status(5, s);
    c.update_character_entity_status(6, s);
    assert_eq!(c.get_entity(5).unwrap().character_status_info, s);
    assert!(c.get_entity(6).is_none());
    let a = RawDataCharacterAttackInfo { unique: 5, attack_power: 8, defense_power: 9 };
    c.update_character_entity_attack_info(5, a);
    assert_eq!(c.get_entity(5).unwrap().character_attack_info, a);
    c.remove_entity(5);
    assert!(c.get_entity(5).is_none());
    assert!(c.get_entity(1).is_some());
}

#[test]
fn status_and_attack_records_update_known_entities() {
    let mut c = loaded();
    c.load_status_records(
        &strings(&["Unique", "health", "Mana"]),
        &vec![RawDataCharacterStatusInfo { unique: 1, health: 10, mana: 20, stamina: 0 }, RawDataCharacterStatusInfo { unique: 9, health: 1, mana: 1, stamina: 0 }],
    );
    assert_eq!(c.labels().status_health, "health");
    assert_eq!(c.labels().status_mana, "Mana");
    assert_eq!(c.labels().status_stamina, "Stamina");
    assert_eq!(c.get_entity(1).unwrap().character_status_info.health, 10);
    assert!(c.get_entity(9).is_none());
    c.load_attack_records(&strings(&["CharacterUnique"]), &vec![RawDataCharacterAttackInfo { unique: 2, attack_power: 4, defense_power: 6 }]);
    assert_eq!(c.labels().attack_attack_power, "AttackPower");
    assert_eq!(c.labels().attack_defense_power, "DefensePower");
    assert_eq!(c.get_entity(2).unwrap().character_attack_info.defense_power, 6);
}

#[test]
fn status_by_named_key_column() {
    let mut c = loaded();
    let headers = strings(&["unique", "Health", "Mana"]);
    let records = vec![strings(&[" 1 ", "30", "40"]), strings(&["2", "5", " 6"])];
    c.load_status_records_with_key_column("Unique", &headers, &records).unwrap();
    let s = c.get_entity(1).unwrap().character_status_info;
    assert_eq!((s.unique, s.health, s.mana, s.stamina), (1, 30, 40, 0));
    assert_eq!(c.get_entity(2).unwrap().character_status_info.mana, 6);
}

#[test]
fn status_by_named_key_column_errors() {
    let mut c = loaded();
    let headers = strings(&["Id", "Health", "Mana"]);
    let r = c.load_status_records_with_key_column("Unique", &headers, &vec![]);
    assert!(matches!(r, Err(EntityLoadError::KeyColumnMissing(ref k)) if k == "Unique"));
    let r = c.load_status_records_with_key_column("id", &headers, &vec![strings(&["x", "1", "1"])]);
    assert!(matches!(r, Err(EntityLoadError::InvalidNumber(ref t)) if t == "x"));
    let r = c.load_status_records_with_key_column("id", &headers, &vec![strings(&["1", "1"])]);
    assert!(matches!(r, Err(EntityLoadError::FieldMissing)));
    let r = c.load_status_records_with_key_column("id", &strings(&["Id", "Mana"]), &vec![strings(&["1", "1"])]);
    assert!(matches!(r, Err(EntityLoadError::HeaderMissing(ref h)) if h == "Health"));
    let r = c.load_status_records_with_key_column("id", &headers, &vec![strings(&["1", "-3", "1"])]);
    assert!(matches!(r, Err(EntityLoadError::InvalidNumber(ref t)) if t == "-3"));
}

#[test]
fn saved_records_take_entity_values() {
    let mut c = loaded();
    c.update_character_entity_status(2, RawDataCharacterStatusInfo { unique: 2, health: 7, mana: 8, stamina: 9 });
    let saved = c.saved_info_records(&vec![info(2, "old"), info(3, "Stranger")]);
    assert_eq!(saved[0].name, "Bob");
    assert_eq!(saved[1].name, "Stranger");
    let saved = c.saved_status_records(&vec![RawDataCharacterStatusInfo::new_zero(), RawDataCharacterStatusInfo { unique: 2, health: 0, mana: 0, stamina: 0 }]);
    assert_eq!(saved[0], RawDataCharacterStatusInfo::new_zero());
    assert_eq!(saved[1].health, 7);
    let saved = c.saved_attack_records(&vec![RawDataCharacterAttackInfo { unique: 1, attack_power: 3, defense_power: 3 }]);
    assert_eq!(saved[0], RawDataCharacterAttackInfo::new_zero());
}

#[test]
fn zero_records() {
    let i = RawDataCharacterInfo::new_zero();
    assert_eq!((i.unique, i.name.as_str()), (0, ""));
    let s = RawDataCharacterStatusInfo::new_zero();
    assert_eq!((s.unique, s.health, s.mana, s.stamina), (0, 0, 0, 0));
    let a = RawDataCharacterAttackInfo::new_zero();
    assert_eq!((a.unique, a.attack_power, a.defense_power), (0, 0, 0));
}
