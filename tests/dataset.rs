use entity_editor::app_state::{gather_sorted_unique_keys, DataSets, TableFile};
use entity_editor::key_order::key_lt;
use entity_editor::dyn_entity::{DynEntity, DynRow, RowMap};
use entity_editor::storage::StoreError;

fn file(path: &str, text: &str) -> TableFile {
    TableFile { path: path.to_string(), content: text.as_bytes().to_vec() }
}

const INFO: &str = "CharacterUnique,Name\n1,Alice\n2,Bob\n";
const STATUS: &str = "Unique,Health,Mana\n2,50,5\n3,70,7\n";
const ATTACK: &str = "CharacterUnique,AttackPower,DefensePower\n1,10,3\n";
const SKILL: &str = "characterunique,Skill\n4,Fire\n";

fn load() -> DataSets {
    DataSets::load(
        &file("data/character_info.csv", INFO),
        &file("data/character_status_info.csv", STATUS),
        &file("data/character_attack_info.txt", ATTACK),
        &file("data/character_skill_info.txt", SKILL),
        "Unique",
    )
    .unwrap()
}

#[test]
fn load_uses_each_tables_key_hint() {
    let ds = load();
    assert_eq!(ds.info_schema.name, "character_info");
    assert_eq!(ds.info_schema.key_column, "CharacterUnique");
    assert_eq!(ds.status_schema.key_column, "Unique");
    assert_eq!(ds.attack_schema.key_column, "CharacterUnique");
    assert_eq!(ds.skill_schema.key_column, "characterunique");
    assert_eq!(ds.skill.get("4").unwrap().get("Skill"), Some("Fire"));
}

#[test]
fn load_fails_on_the_first_unreadable_table() {
    let bad = TableFile { path: "x.csv".to_string(), content: vec![b'K', b'\n', 0xff, b'\n'] };
    let r = DataSets::load(&file("i.csv", INFO), &bad, &file("a.csv", ATTACK), &file("s.csv", SKILL), "Unique");
    assert!(matches!(r, Err(StoreError::Parse { ref path, .. }) if path == "x.csv"));
}

#[test]
fn merged_has_one_entity_per_key() {
    let ds = load();
    let merged = ds.merged();
    let keys: Vec<&str> = merged.iter().map(|e| e.unique.as_str()).collect();
    assert_eq!(keys, vec!["1", "2", "3", "4"]);
    let one = &merged[0];
    assert_eq!(one.info.as_ref().unwrap().get("Name"), Some("Alice"));
    assert!(one.status.is_none());
    assert_eq!(one.attack.as_ref().unwrap().get("AttackPower"), Some("10"));
    assert!(one.skill.is_none());
    let two = &merged[1];
    assert_eq!(two.status.as_ref().unwrap().get("Health"), Some("50"));
    assert!(two.attack.is_none());
    let three = &merged[2];
    assert!(three.info.is_none());
    assert_eq!(three.status.as_ref().unwrap().get("Mana"), Some("7"));
    let four = &merged[3];
    assert_eq!(four.skill.as_ref().unwrap().key, "4");
    assert!(four.info.is_none() && four.status.is_none() && four.attack.is_none());
}

#[test]
fn merged_of_empty_tables_is_empty() {
    let ds = DataSets::load(&file("i", "K\n"), &file("s", "K\n"), &file("a", "K\n"), &file("k", ""), "K").unwrap();
    assert!(ds.merged().is_empty());
}

#[test]
fn save_all_writes_edits_back() {
    let mut ds = load();
    let mut row = ds.status.get("3").unwrap().clone();
    row.set("Health", "99".to_string());
    ds.status.insert(row);
    let out = ds.save_all(&file("i", INFO), &file("s", STATUS), &file("a", ATTACK), &file("k", SKILL)).unwrap();
    assert_eq!(String::from_utf8(out.info).unwrap(), INFO);
    assert_eq!(String::from_utf8(out.status).unwrap(), "Unique,Health,Mana\n2,50,5\n3,99,7\n");
    assert_eq!(String::from_utf8(out.attack).unwrap(), ATTACK);
    assert_eq!(String::from_utf8(out.skill).unwrap(), SKILL);
}

#[test]
fn save_all_keeps_rows_added_to_the_file_since_load() {
    let ds = load();
    let grown = "CharacterUnique,Name\n1,Alice\n2,Bob\n9,Newcomer\n";
    let out = ds.save_all(&file("i", grown), &file("s", STATUS), &file("a", ATTACK), &file("k", SKILL)).unwrap();
    assert_eq!(String::from_utf8(out.info).unwrap(), grown);
}

#[test]
fn save_all_fails_on_unreadable_file() {
    let ds = load();
    let bad = TableFile { path: "attack.txt".to_string(), content: vec![b'K', b'\n', 0xff] };
    let r = ds.save_all(&file("i", INFO), &file("s", STATUS), &bad, &file("k", SKILL));
    assert!(matches!(r, Err(StoreError::Parse { ref path, .. }) if path == "attack.txt"));
}

#[test]
fn row_get_and_set() {
    let mut row = DynRow::new("7".to_string());
    assert_eq!(row.get("Name"), None);
    row.set("Name", "A".to_string());
    row.set("Name", "B".to_string());
    assert_eq!(row.get("Name"), Some("B"));
    assert_eq!(row.cells.len(), 1);
    assert_eq!(row.get("name"), None);
}

#[test]
fn row_map_insert_replaces_by_key() {
    let mut m = RowMap::new();
    assert!(!m.contains_key("1"));
    let mut a = DynRow::new("1".to_string());
    a.set("V", "a".to_string());
    m.insert(a);
    let mut b = DynRow::new("1".to_string());
    b.set("V", "b".to_string());
    m.insert(b);
    assert!(m.contains_key("1"));
    assert_eq!(m.get("1").unwrap().get("V"), Some("b"));
    assert_eq!(m.rows.len(), 1);
}

#[test]
fn ensure_unique_falls_back_in_table_order() {
    let mut e = DynEntity {
        unique: String::new(),
        info: None,
        status: Some(DynRow::new("s".to_string())),
        attack: Some(DynRow::new("a".to_string())),
        skill: None,
    };
    e.ensure_unique();
    assert_eq!(e.unique, "s");
    let mut kept = DynEntity { unique: "k".to_string(), info: Some(DynRow::new("i".to_string())), status: None, attack: None, skill: None };
    kept.ensure_unique();
    assert_eq!(kept.unique, "k");
    let mut skill_only = DynEntity { unique: String::new(), info: None, status: None, attack: None, skill: Some(DynRow::new("z".to_string())) };
    skill_only.ensure_unique();
    assert_eq!(skill_only.unique, "z");
    let mut none = DynEntity { unique: String::new(), info: None, status: None, attack: None, skill: None };
    none.ensure_unique();
    assert_eq!(none.unique, "");
}

#[test]
fn keys_are_listed_once_numbers_by_value() {
    let ds = DataSets::load(
        &file("i.csv", "K,V\n10,a\n9,b\n,blank\n"),
        &file("s.csv", "K\nabc\n2\n"),
        &file("a.csv", "K\nB\n9\n"),
        &file("k.csv", "K\n10\n"),
        "K",
    )
    .unwrap();
    assert_eq!(gather_sorted_unique_keys(&ds), vec!["2", "9", "10", "B", "abc"]);
}

#[test]
fn key_order_compares_numbers_by_value_and_text_by_code_point() {
    assert!(key_lt("9", "10"));
    assert!(!key_lt("10", "9"));
    assert!(key_lt("10", "9a"));
    assert!(key_lt("B", "a"));
    assert!(key_lt("ab", "abc"));
    assert!(!key_lt("abc", "abc"));
    assert!(!key_lt("01", "1"));
    assert!(!key_lt("1", "01"));
    assert!(key_lt("18446744073709551615", "18446744073709551616"));
}
