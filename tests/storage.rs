use entity_editor::dyn_entity::{DynRow, RowMap};
use entity_editor::schema::DataType;
use entity_editor::storage::{
    key_column_index, load_table, resolve_key_column, save_table, table_from_records,
    updated_records, StoreError,
};

fn strings(v: &[&str]) -> Vec<String> {
    v.iter().map(|s| s.to_string()).collect()
}

const SCENARIO: &str = "CharacterUnique,Name\n1,Alice\n2,Bob\n";

#[test]
fn scenario_load_then_save_one_edit() {
    let (schema, rows) = load_table("a.csv", SCENARIO.as_bytes(), "CharacterUnique").unwrap();
    assert_eq!(schema.name, "a");
    assert_eq!(schema.key_column, "CharacterUnique");
    assert_eq!(schema.columns.len(), 2);
    assert_eq!(schema.columns[0].key, "CharacterUnique");
    assert_eq!(schema.columns[0].label, "CharacterUnique");
    assert_eq!(schema.columns[0].dtype, DataType::Int);
    assert_eq!(schema.columns[1].key, "Name");
    assert_eq!(schema.columns[1].dtype, DataType::Text);
    let one = rows.get("1").unwrap();
    assert_eq!(one.key, "1");
    assert_eq!(one.get("CharacterUnique"), Some("1"));
    assert_eq!(one.get("Name"), Some("Alice"));
    assert_eq!(rows.get("2").unwrap().get("Name"), Some("Bob"));
    assert!(rows.get("3").is_none());

    let mut edited = one.clone();
    edited.set("Name", "Alicia".to_string());
    let mut updates = RowMap::new();
    updates.insert(edited);
    let out = save_table("a.csv", SCENARIO.as_bytes(), "CharacterUnique", &updates).unwrap();
    assert_eq!(String::from_utf8(out).unwrap(), "CharacterUnique,Name\n1,Alicia\n2,Bob\n");
}

#[test]
fn round_trip_without_edits_is_identical() {
    let text = "Id,Name,Extra Notes,Score\n3,\"Kim, Min\",한글 메모,1.5\n1,Lee,,2\n2,Park,x,\n";
    let (schema, rows) = load_table("data/t.txt", text.as_bytes(), "id").unwrap();
    assert_eq!(schema.key_column, "Id");
    assert_eq!(schema.name, "t");
    let out = save_table("f.csv", text.as_bytes(), &schema.key_column, &rows).unwrap();
    assert_eq!(String::from_utf8(out).unwrap(), text);
}

#[test]
fn untouched_rows_are_kept() {
    let text = "K,A,B\n1,a1,b1\n2,a2,b2\n3,a3,b3\n";
    let mut row = DynRow::new("2".to_string());
    row.set("A", "new".to_string());
    let mut updates = RowMap::new();
    updates.insert(row);
    let out = save_table("f.csv", text.as_bytes(), "K", &updates).unwrap();
    assert_eq!(String::from_utf8(out).unwrap(), "K,A,B\n1,a1,b1\n2,new,b2\n3,a3,b3\n");
}

#[test]
fn unknown_columns_are_preserved() {
    let text = "K,Known,Secret\n1,x,keep me\n2,y,also\n";
    let mut a = DynRow::new("1".to_string());
    a.set("Known", "X".to_string());
    let mut b = DynRow::new("2".to_string());
    b.set("Known", "Y".to_string());
    b.set("NotInFile", "ignored".to_string());
    let mut updates = RowMap::new();
    updates.insert(a);
    updates.insert(b);
    let out = save_table("f.csv", text.as_bytes(), "K", &updates).unwrap();
    assert_eq!(String::from_utf8(out).unwrap(), "K,Known,Secret\n1,X,keep me\n2,Y,also\n");
}

#[test]
fn short_and_long_rows_are_written_back_unchanged() {
    let text = "K,A,B\n1,a\n2,b,c,d\n";
    let (_, rows) = load_table("f.csv", text.as_bytes(), "K").unwrap();
    assert_eq!(rows.get("1").unwrap().get("B"), Some(""));
    assert_eq!(rows.get("2").unwrap().get("B"), Some("c"));
    let out = save_table("f.csv", text.as_bytes(), "K", &RowMap::new()).unwrap();
    assert_eq!(String::from_utf8(out).unwrap(), "K,A,B\n1,a\n2,b,c,d\n");
}

#[test]
fn edited_rows_keep_fields_past_the_header() {
    let text = "K,A,B\n1,a\n2,b,c,d\n";
    let mut one = DynRow::new("1".to_string());
    one.set("A", "x".to_string());
    let mut two = DynRow::new("2".to_string());
    two.set("B", "y".to_string());
    let mut updates = RowMap::new();
    updates.insert(one);
    updates.insert(two);
    let out = save_table("f.csv", text.as_bytes(), "K", &updates).unwrap();
    assert_eq!(String::from_utf8(out).unwrap(), "K,A,B\n1,x,\n2,b,y,d\n");
}

#[test]
fn saving_twice_equals_saving_once() {
    let text = "K,A,Extra\n1,a,e1\n2,b,e2\n";
    let mut row = DynRow::new("2".to_string());
    row.set("A", "B2".to_string());
    let mut updates = RowMap::new();
    updates.insert(row);
    let once = save_table("f.csv", text.as_bytes(), "K", &updates).unwrap();
    let twice = save_table("f.csv", &once, "K", &updates).unwrap();
    assert_eq!(once, twice);
    assert_eq!(String::from_utf8(twice).unwrap(), "K,A,Extra\n1,a,e1\n2,B2,e2\n");
}

#[test]
fn exact_key_match_beats_case_insensitive() {
    let headers = strings(&["characterunique", "CharacterUnique", "Name"]);
    assert_eq!(key_column_index(&headers, "CharacterUnique"), Some(1));
    assert_eq!(resolve_key_column(&headers, "CharacterUnique"), "CharacterUnique");
}

#[test]
fn case_insensitive_key_match_beats_first_column() {
    let headers = strings(&["Name", "UNIQUE", "unique"]);
    assert_eq!(key_column_index(&headers, "Unique"), Some(1));
    assert_eq!(resolve_key_column(&headers, "Unique"), "UNIQUE");
}

#[test]
fn first_column_when_no_key_matches() {
    let headers = strings(&["Alpha", "Beta"]);
    assert_eq!(key_column_index(&headers, "CharacterUnique"), Some(0));
    assert_eq!(resolve_key_column(&headers, "CharacterUnique"), "Alpha");
}

#[test]
fn id_when_there_are_no_headers() {
    assert_eq!(key_column_index(&Vec::new(), "CharacterUnique"), None);
    assert_eq!(resolve_key_column(&Vec::new(), "CharacterUnique"), "id");
    let (schema, rows) = load_table("empty.csv", b"", "CharacterUnique").unwrap();
    assert_eq!(schema.key_column, "id");
    assert!(schema.columns.is_empty());
    assert!(rows.rows.is_empty());
}

#[test]
fn later_duplicate_key_wins_on_load() {
    let text = "K,V\n1,first\n1,second\n";
    let (_, rows) = load_table("d.csv", text.as_bytes(), "K").unwrap();
    assert_eq!(rows.get("1").unwrap().get("V"), Some("second"));
    assert_eq!(rows.rows.len(), 1);
}

#[test]
fn sampling_looks_at_first_eight_rows_only() {
    let mut text = String::from("K,N\n");
    for i in 0..8 {
        text.push_str(&format!("{i},{i}\n"));
    }
    text.push_str("8,word\n");
    let (schema, _) = load_table("s.csv", text.as_bytes(), "K").unwrap();
    assert_eq!(schema.columns[1].dtype, DataType::Int);
}

#[test]
fn invalid_text_is_a_parse_error() {
    let bytes: &[u8] = b"K,V\n1,\xff\xfe\n";
    assert!(matches!(load_table("bad.csv", bytes, "K"), Err(StoreError::Parse { ref path, .. }) if path == "bad.csv"));
    assert!(matches!(save_table("old.csv", bytes, "K", &RowMap::new()), Err(StoreError::Parse { ref path, .. }) if path == "old.csv"));
}

#[test]
fn table_from_records_builds_schema_and_rows() {
    let headers = strings(&["Unique", "Health"]);
    let records = vec![strings(&["5", "10"]), strings(&["6", ""])];
    let (schema, rows) = table_from_records("status".to_string(), &headers, &records, "unique");
    assert_eq!(schema.name, "status");
    assert_eq!(schema.key_column, "Unique");
    assert_eq!(schema.columns[1].dtype, DataType::Float);
    assert_eq!(rows.get("6").unwrap().get("Health"), Some(""));
    assert_eq!(schema.find("HEALTH").unwrap().label, "Health");
    assert!(schema.find("Mana").is_none());
}

#[test]
fn updated_records_replace_matched_cells() {
    let headers = strings(&["K", "A"]);
    let records = vec![strings(&["1", "x"]), strings(&["2"])];
    let mut row = DynRow::new("2".to_string());
    row.set("A", "z".to_string());
    let mut updates = RowMap::new();
    updates.insert(row);
    let out = updated_records(&headers, &records, "K", &updates);
    assert_eq!(out, vec![strings(&["K", "A"]), strings(&["1", "x"]), strings(&["2", "z"])]);
}

#[test]
fn save_key_falls_back_to_first_column() {
    let text = "A,B\n1,x\n";
    let mut row = DynRow::new("1".to_string());
    row.set("B", "y".to_string());
    let mut updates = RowMap::new();
    updates.insert(row);
    let out = save_table("f.csv", text.as_bytes(), "Missing", &updates).unwrap();
    assert_eq!(String::from_utf8(out).unwrap(), "A,B\n1,y\n");
}
